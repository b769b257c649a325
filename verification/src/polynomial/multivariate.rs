//! Sparse multivariate polynomials over the prime field.
//!
//! A polynomial is a list of terms `(exponents, coefficient)`; the monomial
//! `x_0^a x_1^b ...` is keyed by its exponent vector `[a, b, ...]` with
//! trailing zero exponents removed.  Keys are distinct and coefficients
//! non-zero, so the list is a sparse map from monomials to coefficients
//! (see [`mp_coeff`]); the order of the terms carries no meaning.

use vstd::prelude::*;
use vstd::arithmetic::div_mod::*;
use vstd::arithmetic::mul::*;
use vstd::arithmetic::power::*;

use core::ops::Neg;

use crate::field::{Field, FieldElement};
use crate::polynomial::{
    eval_upto, lemma_eval_constant, lemma_strip_zeros, poly_add, poly_eval, poly_mul, poly_pow, poly_views, poly_wf, strip_zeros,
    Polynomial,
};
use crate::polynomial::eval_laws::{lemma_eval_add, lemma_eval_mul};
use crate::polynomial::multivariate_eval::{
    lemma_add_scaled_mod, lemma_bounded_fit, lemma_max_exponent,
    lemma_mod_add_congruent, lemma_monomial_agree, lemma_monomial_extend, lemma_monomial_of_product,
    lemma_product_bounded, lemma_add_congruent2, lemma_mul_congruent, lemma_pow_congruent, lemma_keys_bounded,
    lemma_mp_eval_negated, lemma_mp_eval_push, lemma_mp_eval_remove, lemma_mp_eval_update,
};

verus! {

/// The exponent vector with its trailing zeros removed.
pub open spec fn trim_exponents(e: Seq<usize>) -> Seq<usize>
    decreases e.len(),
{
    if e.len() > 0 && e.last() == 0 {
        trim_exponents(e.drop_last())
    } else {
        e
    }
}

/// No trailing zero exponent.
pub open spec fn exponents_trimmed(e: Seq<usize>) -> bool {
    e.len() > 0 ==> e.last() != 0
}

/// The exponent of variable `t` (zero past the end).
pub open spec fn exponent_at(e: Seq<usize>, t: int) -> int {
    if 0 <= t < e.len() {
        e[t] as int
    } else {
        0
    }
}

/// The terms as pairs of exponent sequences and coefficients.
pub open spec fn term_views(v: Seq<(Vec<usize>, FieldElement)>) -> Seq<(Seq<usize>, FieldElement)> {
    v.map_values(|t: (Vec<usize>, FieldElement)| (t.0@, t.1))
}

/// The coefficient of monomial `k` (zero when absent).
pub open spec fn mp_coeff(s: Seq<(Seq<usize>, FieldElement)>, k: Seq<usize>) -> int
    decreases s.len(),
{
    if s.len() == 0 {
        0
    } else if s.last().0 == k {
        s.last().1.value as int
    } else {
        mp_coeff(s.drop_last(), k)
    }
}

/// Distinct trimmed keys, non-zero well-formed coefficients of one field.
pub open spec fn mp_wf(s: Seq<(Seq<usize>, FieldElement)>) -> bool {
    &&& forall|i: int| 0 <= i < s.len() ==> exponents_trimmed(#[trigger] s[i].0)
    &&& forall|i: int|
        0 <= i < s.len() ==> (#[trigger] s[i]).1.value != 0 && s[i].1.wf() && s[i].1.field
            == s[0].1.field
    &&& forall|i: int, j: int| 0 <= i < s.len() && 0 <= j < s.len() && i != j ==> s[i].0 != s[j].0
}

/// Every coefficient belongs to `f` (vacuous for the zero polynomial).
pub open spec fn mp_in_field(s: Seq<(Seq<usize>, FieldElement)>, f: Field) -> bool {
    s.len() > 0 ==> s[0].1.field == f
}

/// The coefficient of a present key is the one stored with it.
pub proof fn lemma_mp_coeff_at(s: Seq<(Seq<usize>, FieldElement)>, i: int)
    requires
        0 <= i < s.len(),
        forall|a: int, b: int| 0 <= a < s.len() && 0 <= b < s.len() && a != b ==> s[a].0 != s[b].0,
    ensures
        mp_coeff(s, s[i].0) == s[i].1.value,
    decreases s.len(),
{
    if i != s.len() - 1 {
        lemma_mp_coeff_at(s.drop_last(), i);
    }
}

/// The coefficient of an absent key is zero.
pub proof fn lemma_mp_coeff_absent(s: Seq<(Seq<usize>, FieldElement)>, k: Seq<usize>)
    requires
        forall|i: int| 0 <= i < s.len() ==> s[i].0 != k,
    ensures
        mp_coeff(s, k) == 0,
    decreases s.len(),
{
    if s.len() > 0 {
        lemma_mp_coeff_absent(s.drop_last(), k);
    }
}

/// Equality of two exponent vectors.
fn exponents_eq(a: &Vec<usize>, b: &Vec<usize>) -> (r: bool)
    ensures
        r == (a@ == b@),
{
    if a.len() != b.len() {
        return false;
    }
    let mut i: usize = 0;
    while i < a.len()
        invariant
            i <= a@.len(),
            a@.len() == b@.len(),
            forall|j: int| 0 <= j < i ==> a@[j] == b@[j],
        decreases a@.len() - i,
    {
        if a[i] != b[i] {
            return false;
        }
        i = i + 1;
    }
    proof {
        assert(a@ =~= b@);
    }
    true
}

/// A copy of an exponent vector.
fn copy_exponents(a: &Vec<usize>) -> (r: Vec<usize>)
    ensures
        r@ == a@,
{
    let mut out: Vec<usize> = Vec::new();
    let mut i: usize = 0;
    while i < a.len()
        invariant
            i <= a@.len(),
            out@ == a@.take(i as int),
        decreases a@.len() - i,
    {
        out.push(a[i]);
        i = i + 1;
        proof {
            assert(out@ =~= a@.take(i as int));
        }
    }
    proof {
        assert(a@.take(a@.len() as int) =~= a@);
    }
    out
}

/// Removes trailing zero exponents.
fn trim(e: Vec<usize>) -> (r: Vec<usize>)
    ensures
        r@ == trim_exponents(e@),
        exponents_trimmed(r@),
{
    let mut e = e;
    let ghost given = e@;
    while e.len() > 0 && e[e.len() - 1] == 0
        invariant
            trim_exponents(e@) == trim_exponents(given),
        decreases e@.len(),
    {
        e.pop();
    }
    e
}

/// Where `key` sits among the terms, if present.
fn find_term(terms: &Vec<(Vec<usize>, FieldElement)>, key: &Vec<usize>) -> (r: Option<usize>)
    ensures
        r matches Some(i) ==> i < terms@.len() && terms@[i as int].0@ == key@,
        r is None ==> forall|i: int| 0 <= i < terms@.len() ==> terms@[i].0@ != key@,
{
    let mut i: usize = 0;
    while i < terms.len()
        invariant
            i <= terms@.len(),
            forall|j: int| 0 <= j < i ==> terms@[j].0@ != key@,
        decreases terms@.len() - i,
    {
        if exponents_eq(&terms[i].0, key) {
            return Some(i);
        }
        i = i + 1;
    }
    None
}

/// `k` is the key of one of the terms.
pub open spec fn has_key(s: Seq<(Seq<usize>, FieldElement)>, k: Seq<usize>) -> bool {
    exists|j: int| 0 <= j < s.len() && s[j].0 == k
}

/// `k` is the exponent vector of the product of a term of `a` and a term of `b`.
pub open spec fn from_pair(a: Seq<(Seq<usize>, FieldElement)>, b: Seq<(Seq<usize>, FieldElement)>, k: Seq<usize>) -> bool {
    exists|i: int, j: int| 0 <= i < a.len() && 0 <= j < b.len() && exponents_sum(a[i].0, b[j].0) == k
}

/// Every exponent of every term is at most `bound`.
pub open spec fn exponents_bounded(s: Seq<(Seq<usize>, FieldElement)>, bound: int) -> bool {
    forall|i: int, t: int| #![trigger exponent_at(s[i].0, t)] 0 <= i < s.len() ==> exponent_at(s[i].0, t) <= bound
}

/// The largest entry of an exponent vector (zero when empty).
pub open spec fn vec_max(e: Seq<usize>) -> int
    decreases e.len(),
{
    if e.len() == 0 {
        0
    } else if e.last() > vec_max(e.drop_last()) {
        e.last() as int
    } else {
        vec_max(e.drop_last())
    }
}

/// The largest exponent occurring in any term (zero for no terms).
pub open spec fn max_exponent(s: Seq<(Seq<usize>, FieldElement)>) -> int
    decreases s.len(),
{
    if s.len() == 0 {
        0
    } else if vec_max(s.last().0) > max_exponent(s.drop_last()) {
        vec_max(s.last().0)
    } else {
        max_exponent(s.drop_last())
    }
}

/// Adds `c x^key` to a term list.
fn add_term(terms: &mut Vec<(Vec<usize>, FieldElement)>, key: Vec<usize>, c: FieldElement)
    requires
        mp_wf(term_views(old(terms)@)),
        mp_in_field(term_views(old(terms)@), c.field),
        c.wf(),
        exponents_trimmed(key@),
    ensures
        mp_wf(term_views(final(terms)@)),
        mp_in_field(term_views(final(terms)@), c.field),
        forall|k: Seq<usize>| #[trigger] mp_coeff(term_views(final(terms)@), k) == (if k == key@ {
            (mp_coeff(term_views(old(terms)@), k) + c.value) % (c.field.p as int)
        } else {
            mp_coeff(term_views(old(terms)@), k)
        }),
        forall|i: int|
            0 <= i < final(terms)@.len() ==> (#[trigger] term_views(final(terms)@)[i]).0 == key@
                || has_key(term_views(old(terms)@), term_views(final(terms)@)[i].0),
        forall|x: Seq<int>| #[trigger] mp_eval(term_views(final(terms)@), x) % (c.field.p as int) == (mp_eval(
            term_views(old(terms)@),
            x,
        ) + c.value * monomial_value(key@, x)) % (c.field.p as int),
{
    let ghost s0 = term_views(terms@);
    let ghost p = c.field.p as int;
    let ghost key_view = key@;
    match find_term(terms, &key) {
        Some(i) => {
            let old_c = terms[i].1;
            proof {
                lemma_mp_coeff_at(s0, i as int);
            }
            let sum = old_c + c;
            if sum.value == 0 {
                terms.remove(i);
                proof {
                    let s1 = term_views(terms@);
                    assert(s1 =~= s0.remove(i as int));
                    assert forall|k: Seq<usize>| #[trigger] mp_coeff(s1, k) == (if k == key@ {
                        (mp_coeff(s0, k) + c.value) % p
                    } else {
                        mp_coeff(s0, k)
                    }) by {
                        if k == key@ {
                            lemma_mp_coeff_absent(s1, k);
                        } else {
                            if exists|j: int| 0 <= j < s1.len() && s1[j].0 == k {
                                let j = choose|j: int| 0 <= j < s1.len() && s1[j].0 == k;
                                lemma_mp_coeff_at(s1, j);
                                let j0 = if j < i { j } else { j + 1 };
                                assert(s0[j0] == s1[j]);
                                lemma_mp_coeff_at(s0, j0);
                            } else {
                                lemma_mp_coeff_absent(s1, k);
                                assert forall|j: int| 0 <= j < s0.len() implies s0[j].0 != k by {
                                    if j < i {
                                        assert(s1[j] == s0[j]);
                                    } else if j > i {
                                        assert(s1[j - 1] == s0[j]);
                                    }
                                }
                                lemma_mp_coeff_absent(s0, k);
                            }
                        }
                    }
                    if s1.len() > 0 {
                        assert(s1[0].1.field == c.field);
                    }
                    assert forall|t: int| 0 <= t < s1.len() implies (#[trigger] s1[t]).0 == key_view
                        || has_key(s0, s1[t].0) by {
                        if t < i {
                            assert(s1[t] == s0[t]);
                        } else {
                            assert(s1[t] == s0[t + 1]);
                        }
                    }
                    assert forall|x: Seq<int>| #[trigger] mp_eval(s1, x) % p == (mp_eval(s0, x) + c.value
                        * monomial_value(key_view, x)) % p by {
                        let m = monomial_value(key_view, x);
                        lemma_mp_eval_remove(s0, i as int, x);
                        lemma_add_scaled_mod(mp_eval(s0, x) - old_c.value * m, old_c.value + c.value, m, p);
                        assert((mp_eval(s0, x) - old_c.value * m) + (old_c.value + c.value) * m == mp_eval(s0, x)
                            + c.value * m) by (nonlinear_arith);
                    }
                }
            } else {
                terms.set(i, (key, sum));
                proof {
                    let s1 = term_views(terms@);
                    assert(s1 =~= s0.update(i as int, (key_view, sum)));
                    assert forall|t: int| 0 <= t < s1.len() implies (#[trigger] s1[t]).0 == key_view
                        || has_key(s0, s1[t].0) by {
                        if t != i {
                            assert(s1[t] == s0[t]);
                        }
                    }
                    assert forall|x: Seq<int>| #[trigger] mp_eval(s1, x) % p == (mp_eval(s0, x) + c.value
                        * monomial_value(key_view, x)) % p by {
                        let m = monomial_value(key_view, x);
                        lemma_mp_eval_update(s0, i as int, (key_view, sum), x);
                        lemma_add_scaled_mod(mp_eval(s0, x) - old_c.value * m, old_c.value + c.value, m, p);
                        assert((mp_eval(s0, x) - old_c.value * m) + (old_c.value + c.value) * m == mp_eval(s0, x)
                            + c.value * m) by (nonlinear_arith);
                    }
                    lemma_small_mod(sum.value as nat, c.field.p as nat);
                    assert forall|k: Seq<usize>| #[trigger] mp_coeff(s1, k) == (if k == key@ {
                        (mp_coeff(s0, k) + c.value) % p
                    } else {
                        mp_coeff(s0, k)
                    }) by {
                        if k == key@ {
                            lemma_mp_coeff_at(s1, i as int);
                        } else {
                            if exists|j: int| 0 <= j < s1.len() && s1[j].0 == k {
                                let j = choose|j: int| 0 <= j < s1.len() && s1[j].0 == k;
                                lemma_mp_coeff_at(s1, j);
                                lemma_mp_coeff_at(s0, j);
                            } else {
                                lemma_mp_coeff_absent(s1, k);
                                assert forall|j: int| 0 <= j < s0.len() implies s0[j].0 != k by {
                                    assert(j != i ==> s1[j] == s0[j]);
                                }
                                lemma_mp_coeff_absent(s0, k);
                            }
                        }
                    }
                }
            }
        },
        None => {
            proof {
                lemma_mp_coeff_absent(s0, key@);
                lemma_small_mod(c.value as nat, c.field.p as nat);
            }
            if c.value != 0 {
                terms.push((key, c));
                proof {
                    let s1 = term_views(terms@);
                    assert(s1 =~= s0.push((key_view, c)));
                    assert forall|t: int| 0 <= t < s1.len() implies (#[trigger] s1[t]).0 == key_view
                        || has_key(s0, s1[t].0) by {
                        if t < s0.len() {
                            assert(s1[t] == s0[t]);
                        }
                    }
                    assert forall|x: Seq<int>| #[trigger] mp_eval(s1, x) % p == (mp_eval(s0, x) + c.value
                        * monomial_value(key_view, x)) % p by {
                        lemma_mp_eval_push(s0, (key_view, c), x);
                    }
                    assert forall|k: Seq<usize>| #[trigger] mp_coeff(s1, k) == (if k == key@ {
                        (mp_coeff(s0, k) + c.value) % p
                    } else {
                        mp_coeff(s0, k)
                    }) by {
                        assert(s1.drop_last() =~= s0);
                    }
                }
            } else {
                proof {
                    assert forall|k: Seq<usize>| #[trigger] mp_coeff(term_views(terms@), k) == (if k == key@ {
                        (mp_coeff(s0, k) + c.value) % p
                    } else {
                        mp_coeff(s0, k)
                    }) by {
                        lemma_small_mod(0, c.field.p as nat);
                    }
                    assert forall|t: int| 0 <= t < s0.len() implies (#[trigger] s0[t]).0 == key_view
                        || has_key(s0, s0[t].0) by {
                    }
                    assert forall|x: Seq<int>| #[trigger] mp_eval(s0, x) % p == (mp_eval(s0, x) + c.value
                        * monomial_value(key_view, x)) % p by {
                        assert(c.value == 0);
                        vstd::arithmetic::mul::lemma_mul_basics(monomial_value(key_view, x));
                        assert(c.value * monomial_value(key_view, x) == 0);
                    }
                }
            }
        },
    }
}

/// Sets the coefficient of `x^key` to `c`.
fn set_term(terms: &mut Vec<(Vec<usize>, FieldElement)>, key: Vec<usize>, c: FieldElement)
    requires
        mp_wf(term_views(old(terms)@)),
        mp_in_field(term_views(old(terms)@), c.field),
        c.wf(),
        exponents_trimmed(key@),
    ensures
        mp_wf(term_views(final(terms)@)),
        mp_in_field(term_views(final(terms)@), c.field),
        forall|k: Seq<usize>| #[trigger] mp_coeff(term_views(final(terms)@), k) == (if k == key@ {
            c.value as int
        } else {
            mp_coeff(term_views(old(terms)@), k)
        }),
{
    let ghost s0 = term_views(terms@);
    let ghost p = c.field.p as int;
    match find_term(terms, &key) {
        Some(i) => {
            let old_c = terms[i].1;
            proof {
                lemma_mp_coeff_at(s0, i as int);
                assert(old_c.field == c.field);
            }
            let cancel = old_c.neg();
            let key_copy = copy_exponents(&key);
            add_term(terms, key_copy, cancel);
            proof {
                lemma_add_mod_noop_right(old_c.value as int, -old_c.value, p);
                lemma_small_mod(0, c.field.p as nat);
            }
            let ghost s1 = term_views(terms@);
            add_term(terms, key, c);
            proof {
                lemma_small_mod(c.value as nat, c.field.p as nat);
            }
        },
        None => {
            proof {
                lemma_mp_coeff_absent(s0, key@);
            }
            add_term(terms, key, c);
            proof {
                lemma_small_mod(c.value as nat, c.field.p as nat);
            }
        },
    }
}

/// A copy of a term list.
fn copy_terms(terms: &Vec<(Vec<usize>, FieldElement)>) -> (r: Vec<(Vec<usize>, FieldElement)>)
    ensures
        term_views(r@) == term_views(terms@),
{
    let mut out: Vec<(Vec<usize>, FieldElement)> = Vec::new();
    let mut i: usize = 0;
    while i < terms.len()
        invariant
            i <= terms@.len(),
            term_views(out@) == term_views(terms@).take(i as int),
        decreases terms@.len() - i,
    {
        let key = copy_exponents(&terms[i].0);
        let ghost before = out@;
        out.push((key, terms[i].1));
        i = i + 1;
        proof {
            assert(term_views(out@) =~= term_views(before).push((key@, terms@[i - 1].1)));
            assert(term_views(out@) =~= term_views(terms@).take(i as int));
        }
    }
    proof {
        assert(term_views(terms@).take(i as int) =~= term_views(terms@));
    }
    out
}


/// The exponent vector of the product of two monomials.
pub open spec fn exponents_sum(e1: Seq<usize>, e2: Seq<usize>) -> Seq<usize> {
    let n = if e1.len() >= e2.len() { e1.len() } else { e2.len() };
    trim_exponents(Seq::new(n, |t: int| (exponent_at(e1, t) + exponent_at(e2, t)) as usize))
}

/// The exponent vector of the product of the monomials `e1` and `e2`.
fn exponents_add(e1: &Vec<usize>, e2: &Vec<usize>) -> (r: Vec<usize>)
    requires
        forall|t: int|
            #![trigger exponent_at(e1@, t), exponent_at(e2@, t)]
            exponent_at(e1@, t) + exponent_at(e2@, t) <= usize::MAX,
    ensures
        r@ == exponents_sum(e1@, e2@),
{
    let n = if e1.len() >= e2.len() {
        e1.len()
    } else {
        e2.len()
    };
    let mut out: Vec<usize> = Vec::new();
    let mut t: usize = 0;
    while t < n
        invariant
            t <= n,
            n == (if e1@.len() >= e2@.len() { e1@.len() } else { e2@.len() }),
            out@.len() == t,
            forall|s: int| 0 <= s < t ==> out@[s] == exponent_at(e1@, s) + exponent_at(e2@, s),
            forall|t: int|
                #![trigger exponent_at(e1@, t), exponent_at(e2@, t)]
                exponent_at(e1@, t) + exponent_at(e2@, t) <= usize::MAX,
        decreases n - t,
    {
        let x = if t < e1.len() {
            e1[t]
        } else {
            0
        };
        let y = if t < e2.len() {
            e2[t]
        } else {
            0
        };
        assert(exponent_at(e1@, t as int) + exponent_at(e2@, t as int) <= usize::MAX);
        out.push(x + y);
        t = t + 1;
    }
    proof {
        assert(out@ =~= Seq::new(
            n as nat,
            |t: int| (exponent_at(e1@, t) + exponent_at(e2@, t)) as usize,
        ));
    }
    trim(out)
}

/// The contribution to monomial `k` of the products of the term `ai` with
/// the first `n` terms of `b`.
pub open spec fn row_sum(ai: (Seq<usize>, FieldElement), b: Seq<(Seq<usize>, FieldElement)>, k: Seq<usize>, n: nat) -> int
    decreases n,
{
    if n == 0 {
        0
    } else {
        row_sum(ai, b, k, (n - 1) as nat) + (if exponents_sum(ai.0, b[n - 1].0) == k {
            ai.1.value * b[n - 1].1.value
        } else {
            0
        })
    }
}

/// `Σ_{i<m} Σ_j [e_i + f_j = k] a_i b_j`: the coefficient of monomial `k`
/// in the product, over the first `m` terms of `a`.
pub open spec fn pair_sum(a: Seq<(Seq<usize>, FieldElement)>, b: Seq<(Seq<usize>, FieldElement)>, k: Seq<usize>, m: nat) -> int
    decreases m,
{
    if m == 0 {
        0
    } else {
        pair_sum(a, b, k, (m - 1) as nat) + row_sum(a[m - 1], b, k, b.len())
    }
}

/// No exponent of a product of two terms overflows.
pub open spec fn exponent_sums_fit(a: Seq<(Seq<usize>, FieldElement)>, b: Seq<(Seq<usize>, FieldElement)>) -> bool {
    forall|i: int, j: int, t: int|
        #![trigger exponent_at(a[i].0, t), exponent_at(b[j].0, t)]
        0 <= i < a.len() && 0 <= j < b.len() ==> exponent_at(a[i].0, t) + exponent_at(b[j].0, t)
            <= usize::MAX
}

/// `Π_{t<n} x_t^{e_t}` over the integers.
pub open spec fn monomial_upto(e: Seq<usize>, x: Seq<int>, n: nat) -> int
    decreases n,
{
    if n == 0 {
        1
    } else {
        monomial_upto(e, x, (n - 1) as nat) * pow(x[n - 1], exponent_at(e, n - 1) as nat)
    }
}

/// The value of a monomial at a point.
pub open spec fn monomial_value(e: Seq<usize>, x: Seq<int>) -> int {
    monomial_upto(e, x, e.len())
}

/// `Σ_i c_i x^{e_i}` over the integers.
pub open spec fn mp_eval(s: Seq<(Seq<usize>, FieldElement)>, x: Seq<int>) -> int
    decreases s.len(),
{
    if s.len() == 0 {
        0
    } else {
        mp_eval(s.drop_last(), x) + s.last().1.value * monomial_value(s.last().0, x)
    }
}

/// The coefficient that `new` keeps for monomial `k`: that of the last
/// entry with a non-zero coefficient whose trimmed exponents are `k`.
pub open spec fn entries_coeff(entries: Seq<(Seq<usize>, FieldElement)>, k: Seq<usize>) -> int
    decreases entries.len(),
{
    if entries.len() == 0 {
        0
    } else if entries.last().1.value != 0 && trim_exponents(entries.last().0) == k {
        entries.last().1.value as int
    } else {
        entries_coeff(entries.drop_last(), k)
    }
}

/// Sparse multivariate polynomial keyed by exponent vectors.
#[derive(Debug)]
pub struct MPolynomial {
    terms: Vec<(Vec<usize>, FieldElement)>,
}

impl View for MPolynomial {
    type V = Seq<(Seq<usize>, FieldElement)>;

    closed spec fn view(&self) -> Seq<(Seq<usize>, FieldElement)> {
        term_views(self.terms@)
    }
}

impl MPolynomial {
    #[verifier::type_invariant]
    closed spec fn inv(self) -> bool {
        mp_wf(term_views(self.terms@))
    }

    /// The coefficient of monomial `k`.
    pub open spec fn coeff_of(&self, k: Seq<usize>) -> int {
        mp_coeff(self@, k)
    }

    /// The field of the coefficients (meaningful for a non-zero polynomial).
    pub open spec fn field_spec(&self) -> Field {
        self@[0].1.field
    }

    /// Creates a multivariate polynomial from `(exponents, coefficient)`
    /// entries, dropping zero coefficients and trailing zero exponents; of
    /// entries that end up with the same exponents the last one is kept.
    pub fn new(dictionary: Vec<(Vec<usize>, FieldElement)>) -> (r: MPolynomial)
        requires
            forall|i: int|
                0 <= i < dictionary@.len() ==> (#[trigger] dictionary@[i]).1.wf()
                    && dictionary@[i].1.field == dictionary@[0].1.field,
        ensures
            forall|k: Seq<usize>| #[trigger] r.coeff_of(k) == entries_coeff(term_views(dictionary@), k),
            dictionary@.len() > 0 ==> mp_in_field(r@, dictionary@[0].1.field),
    {
        let ghost entries = term_views(dictionary@);
        let mut terms: Vec<(Vec<usize>, FieldElement)> = Vec::new();
        let mut dictionary = dictionary;
        let ghost given = dictionary@;
        let n = dictionary.len();
        let mut i: usize = 0;
        proof {
            assert forall|k: Seq<usize>| #[trigger] mp_coeff(term_views(terms@), k) == entries_coeff(
                entries.take(0),
                k,
            ) by {}
        }
        while i < n
            invariant
                n == entries.len(),
                entries == term_views(given),
                dictionary@.len() == n,
                forall|j: int| i <= j < n ==> #[trigger] dictionary@[j] == given[j],
                forall|j: int|
                    0 <= j < n ==> (#[trigger] given[j]).1.wf() && given[j].1.field == given[0].1.field,
                i <= n,
                mp_wf(term_views(terms@)),
                n > 0 ==> mp_in_field(term_views(terms@), given[0].1.field),
                forall|k: Seq<usize>| #[trigger] mp_coeff(term_views(terms@), k) == entries_coeff(
                    entries.take(i as int),
                    k,
                ),
            decreases n - i,
        {
            let c = dictionary[i].1;
            let mut exponent: Vec<usize> = Vec::new();
            std::mem::swap(&mut exponent, &mut dictionary[i].0);
            proof {
                assert(exponent@ == given[i as int].0@);
                assert(entries.take(i + 1).drop_last() =~= entries.take(i as int));
                assert(entries.take(i + 1).last() == (exponent@, c));
            }
            if c.value != 0 {
                let key = trim(exponent);
                set_term(&mut terms, key, c);
            }
            proof {
                assert forall|j: int| i + 1 <= j < n implies #[trigger] dictionary@[j] == given[j] by {}
            }
            i = i + 1;
        }
        proof {
            assert(entries.take(n as int) =~= entries);
        }
        MPolynomial { terms }
    }

    /// Returns the zero polynomial.
    pub fn zero() -> (r: MPolynomial)
        ensures
            r@.len() == 0,
            forall|k: Seq<usize>| #[trigger] r.coeff_of(k) == 0,
    {
        MPolynomial { terms: Vec::new() }
    }

    /// Returns a constant multivariate polynomial.
    pub fn constant(element: FieldElement) -> (r: MPolynomial)
        requires
            element.wf(),
        ensures
            mp_in_field(r@, element.field),
            element.value == 0 ==> r@.len() == 0,
            element.value != 0 ==> r@ == seq![(Seq::<usize>::empty(), element)],
            forall|k: Seq<usize>| #[trigger] r.coeff_of(k) == (if k.len() == 0 {
                element.value as int
            } else {
                0
            }),
    {
        if element.value == 0 {
            MPolynomial { terms: Vec::new() }
        } else {
            let mut terms: Vec<(Vec<usize>, FieldElement)> = Vec::new();
            let empty_key: Vec<usize> = Vec::new();
            terms.push((empty_key, element));
            proof {
                let s = term_views(terms@);
                assert(s.len() == 1);
                assert(s[0].0 == Seq::<usize>::empty());
                assert(s.drop_last() =~= Seq::<(Seq<usize>, FieldElement)>::empty());
                assert forall|k: Seq<usize>| #[trigger] mp_coeff(s, k) == (if k.len() == 0 {
                    element.value as int
                } else {
                    0
                }) by {
                    reveal_with_fuel(mp_coeff, 2);
                    if k.len() == 0 {
                        assert(s.last().0 =~= k);
                    } else {
                        assert(s.last().0 != k);
                        assert(mp_coeff(s.drop_last(), k) == 0);
                    }
                }
                assert(s =~= seq![(Seq::<usize>::empty(), element)]);
            }
            MPolynomial { terms }
        }
    }

    /// Returns `true` when the polynomial has no non-zero terms.
    pub fn is_zero(&self) -> (b: bool)
        ensures
            b == (self@.len() == 0),
            b ==> forall|k: Seq<usize>| #[trigger] self.coeff_of(k) == 0,
    {
        self.terms.len() == 0
    }

    /// Returns the sparse term list: distinct exponent vectors with their
    /// non-zero coefficients.
    pub fn dictionary(&self) -> (d: &[(Vec<usize>, FieldElement)])
        ensures
            term_views(d@) == self@,
            mp_wf(self@),
    {
        proof {
            use_type_invariant(self);
        }
        self.terms.as_slice()
    }
}

impl Clone for MPolynomial {
    fn clone(&self) -> (r: MPolynomial)
        ensures
            r@ == self@,
    {
        proof {
            use_type_invariant(self);
        }
        MPolynomial { terms: copy_terms(&self.terms) }
    }
}

impl core::ops::Add for MPolynomial {
    type Output = MPolynomial;

    fn add(self, rhs: MPolynomial) -> (r: MPolynomial)
        ensures
            forall|k: Seq<usize>| #[trigger] r.coeff_of(k) == (if self@.len() == 0 {
                rhs.coeff_of(k)
            } else {
                (self.coeff_of(k) + rhs.coeff_of(k)) % (self.field_spec().p as int)
            }),
            self@.len() > 0 ==> mp_in_field(r@, self.field_spec()),
            rhs@.len() > 0 ==> mp_in_field(r@, rhs.field_spec()),
            self@.len() == 0 ==> r@ == rhs@,
            self@.len() > 0 ==> forall|x: Seq<int>| #[trigger] mp_eval(r@, x) % (self.field_spec().p as int)
                == (mp_eval(self@, x) + mp_eval(rhs@, x)) % (self.field_spec().p as int),
            forall|t: int| 0 <= t < r@.len() ==> has_key(self@, (#[trigger] r@[t]).0) || has_key(rhs@, r@[t].0),
    {
        proof {
            use_type_invariant(&self);
            use_type_invariant(&rhs);
        }
        if self.terms.len() == 0 {
            proof {
                assert forall|t: int| 0 <= t < rhs@.len() implies has_key(rhs@, (#[trigger] rhs@[t]).0) by {
                }
            }
            return rhs;
        }
        let ghost a = self@;
        let ghost b = rhs@;
        let ghost f = a[0].1.field;
        let ghost p = f.p as int;
        let mut terms = copy_terms(&self.terms);
        let mut j: usize = 0;
        proof {
            assert forall|k: Seq<usize>| #[trigger] mp_coeff(term_views(terms@), k) == (mp_coeff(a, k)
                + mp_coeff(b.take(0), k)) % p by {
                if exists|i: int| 0 <= i < a.len() && a[i].0 == k {
                    let i = choose|i: int| 0 <= i < a.len() && a[i].0 == k;
                    lemma_mp_coeff_at(a, i);
                    lemma_small_mod(a[i].1.value as nat, p as nat);
                } else {
                    lemma_mp_coeff_absent(a, k);
                    lemma_small_mod(0, p as nat);
                }
            }
            assert(b.take(0) =~= Seq::<(Seq<usize>, FieldElement)>::empty());
            assert forall|t: int| 0 <= t < term_views(terms@).len() implies has_key(a, (#[trigger] term_views(terms@)[t]).0)
                || has_key(b, term_views(terms@)[t].0) by {
                assert(term_views(terms@)[t] == a[t]);
            }
        }
        while j < rhs.terms.len()
            invariant
                a == self@,
                b == rhs@,
                forall|t: int| 0 <= t < term_views(terms@).len() ==> has_key(a, (#[trigger] term_views(terms@)[t]).0)
                    || has_key(b, term_views(terms@)[t].0),
                mp_wf(a),
                mp_wf(b),
                a.len() > 0,
                f == a[0].1.field,
                p == f.p,
                b.len() > 0 ==> b[0].1.field == f,
                j <= b.len(),
                mp_wf(term_views(terms@)),
                mp_in_field(term_views(terms@), f),
                forall|k: Seq<usize>| #[trigger] mp_coeff(term_views(terms@), k) == (mp_coeff(a, k)
                    + mp_coeff(b.take(j as int), k)) % p,
                forall|x: Seq<int>| #[trigger] mp_eval(term_views(terms@), x) % p == (mp_eval(a, x) + mp_eval(
                    b.take(j as int),
                    x,
                )) % p,
            decreases b.len() - j,
        {
            let key = copy_exponents(&rhs.terms[j].0);
            let c = rhs.terms[j].1;
            proof {
                assert(b[j as int] == (rhs.terms@[j as int].0@, c));
                assert(exponents_trimmed(b[j as int].0));
            }
            let ghost t0 = term_views(terms@);
            add_term(&mut terms, key, c);
            proof {
                assert forall|t: int| 0 <= t < term_views(terms@).len() implies has_key(a, (#[trigger] term_views(terms@)[t]).0)
                    || has_key(b, term_views(terms@)[t].0) by {
                    let k = term_views(terms@)[t].0;
                    if k == key@ {
                        assert(b[j as int].0 == k);
                    } else {
                        assert(has_key(t0, k));
                        let i = choose|i: int| 0 <= i < t0.len() && t0[i].0 == k;
                        assert(has_key(a, t0[i].0) || has_key(b, t0[i].0));
                    }
                }
                let bj = b.take(j + 1);
                assert(bj.drop_last() =~= b.take(j as int));
                assert(bj.last() == b[j as int]);
                assert forall|x: Seq<int>| #[trigger] mp_eval(term_views(terms@), x) % p == (mp_eval(a, x)
                    + mp_eval(bj, x)) % p by {
                    let cm = c.value * monomial_value(key@, x);
                    lemma_mod_add_congruent(
                        mp_eval(t0, x),
                        mp_eval(a, x) + mp_eval(b.take(j as int), x),
                        cm,
                        p,
                    );
                }
                assert forall|k: Seq<usize>| #[trigger] mp_coeff(term_views(terms@), k) == (mp_coeff(a, k)
                    + mp_coeff(bj, k)) % p by {
                    if k == key@ {
                        lemma_add_mod_noop(mp_coeff(a, k) + mp_coeff(b.take(j as int), k), c.value as int, p);
                        lemma_mod_twice(mp_coeff(a, k) + mp_coeff(b.take(j as int), k), p);
                        lemma_small_mod(c.value as nat, p as nat);
                        lemma_add_mod_noop(mp_coeff(a, k) + mp_coeff(b.take(j as int), k), c.value as int, p);
                        // the key appears once in b, so it is absent from the prefix
                        assert forall|i: int| 0 <= i < b.take(j as int).len() implies b.take(j as int)[i].0 != k by {
                            assert(b[i].0 != b[j as int].0);
                        }
                        lemma_mp_coeff_absent(b.take(j as int), k);
                    }
                }
            }
            j = j + 1;
        }
        proof {
            assert(b.take(b.len() as int) =~= b);
        }
        MPolynomial { terms }
    }
}

impl vstd::std_specs::ops::AddSpecImpl for MPolynomial {
    open spec fn obeys_add_spec() -> bool {
        false
    }

    open spec fn add_req(self, rhs: MPolynomial) -> bool {
        self@.len() > 0 && rhs@.len() > 0 ==> self.field_spec() == rhs.field_spec()
    }

    open spec fn add_spec(self, rhs: MPolynomial) -> MPolynomial {
        self
    }
}

impl core::ops::Neg for MPolynomial {
    type Output = MPolynomial;

    fn neg(self) -> (r: MPolynomial)
        ensures
            forall|k: Seq<usize>| #[trigger] r.coeff_of(k) == (if self@.len() == 0 {
                0
            } else {
                (-self.coeff_of(k)) % (self.field_spec().p as int)
            }),
            self@.len() > 0 ==> mp_in_field(r@, self.field_spec()),
            r@.len() == self@.len(),
            forall|t: int| 0 <= t < r@.len() ==> (#[trigger] r@[t]).0 == self@[t].0,
            self@.len() > 0 ==> forall|x: Seq<int>| #[trigger] mp_eval(r@, x) % (self.field_spec().p as int)
                == (-mp_eval(self@, x)) % (self.field_spec().p as int),
    {
        proof {
            use_type_invariant(&self);
        }
        let ghost a = self@;
        let n = self.terms.len();
        let mut terms: Vec<(Vec<usize>, FieldElement)> = Vec::new();
        let mut i: usize = 0;
        while i < n
            invariant
                a == self@,
                mp_wf(a),
                n == a.len(),
                i <= n,
                term_views(terms@).len() == i,
                forall|t: int| 0 <= t < i ==> (#[trigger] term_views(terms@)[t]).0 == a[t].0
                    && term_views(terms@)[t].1 == a[t].1.field.element_of(-a[t].1.value),
            decreases n - i,
        {
            let key = copy_exponents(&self.terms[i].0);
            let c = self.terms[i].1;
            proof {
                assert(a[i as int] == (self.terms@[i as int].0@, c));
            }
            let ghost before = terms@;
            terms.push((key, c.neg()));
            proof {
                assert(term_views(terms@) =~= term_views(before).push((key@, c.field.element_of(-c.value))));
            }
            i = i + 1;
        }
        let ghost t = term_views(terms@);
        proof {
            assert forall|x: int| 0 <= x < n implies (#[trigger] t[x]).1.value != 0 && t[x].1.wf()
                && t[x].1.field == t[0].1.field by {
                let v = a[x].1.value as int;
                let pp = a[x].1.field.p as int;
                lemma_small_mod(v as nat, pp as nat);
                lemma_mod_bound(-v, pp);
                if (-v) % pp == 0 {
                    lemma_add_mod_noop(v, -v, pp);
                    lemma_mod_self_0(pp);
                    lemma_small_mod(0, pp as nat);
                }
            }
            if n > 0 {
                let pp = a[0].1.field.p as int;
                assert forall|x: Seq<int>| #[trigger] mp_eval(t, x) % pp == (-mp_eval(a, x)) % pp by {
                    assert forall|y: int| 0 <= y < a.len() implies (#[trigger] t[y]).0 == a[y].0 && t[y].1.value
                        == (-a[y].1.value) % pp by {
                        lemma_mod_bound(-a[y].1.value, pp);
                    }
                    lemma_mp_eval_negated(t, a, x, pp);
                }
            }
            assert forall|k: Seq<usize>| #[trigger] mp_coeff(t, k) == (if a.len() == 0 {
                0
            } else {
                (-mp_coeff(a, k)) % (a[0].1.field.p as int)
            }) by {
                if a.len() > 0 {
                    let pp = a[0].1.field.p as int;
                    if exists|x: int| 0 <= x < a.len() && a[x].0 == k {
                        let x = choose|x: int| 0 <= x < a.len() && a[x].0 == k;
                        lemma_mp_coeff_at(a, x);
                        lemma_mp_coeff_at(t, x);
                    } else {
                        lemma_mp_coeff_absent(a, k);
                        lemma_mp_coeff_absent(t, k);
                        lemma_small_mod(0, pp as nat);
                    }
                }
            }
        }
        MPolynomial { terms }
    }
}

impl vstd::std_specs::ops::NegSpecImpl for MPolynomial {
    open spec fn obeys_neg_spec() -> bool {
        false
    }

    open spec fn neg_req(self) -> bool {
        true
    }

    open spec fn neg_spec(self) -> MPolynomial {
        self
    }
}

impl core::ops::Sub for MPolynomial {
    type Output = MPolynomial;

    fn sub(self, rhs: MPolynomial) -> (r: MPolynomial)
        ensures
            forall|k: Seq<usize>| #[trigger] r.coeff_of(k) == (if self@.len() == 0 {
                if rhs@.len() == 0 {
                    0
                } else {
                    (-rhs.coeff_of(k)) % (rhs.field_spec().p as int)
                }
            } else if rhs@.len() == 0 {
                self.coeff_of(k)
            } else {
                (self.coeff_of(k) - rhs.coeff_of(k)) % (self.field_spec().p as int)
            }),
            self@.len() > 0 ==> mp_in_field(r@, self.field_spec()),
            rhs@.len() > 0 ==> mp_in_field(r@, rhs.field_spec()),
            self@.len() == 0 && rhs@.len() == 0 ==> r@.len() == 0,
            self@.len() > 0 ==> forall|x: Seq<int>| #[trigger] mp_eval(r@, x) % (self.field_spec().p as int)
                == (mp_eval(self@, x) - mp_eval(rhs@, x)) % (self.field_spec().p as int),
            self@.len() == 0 && rhs@.len() > 0 ==> forall|x: Seq<int>| #[trigger] mp_eval(r@, x) % (
            rhs.field_spec().p as int) == (-mp_eval(rhs@, x)) % (rhs.field_spec().p as int),
            forall|t: int| 0 <= t < r@.len() ==> has_key(self@, (#[trigger] r@[t]).0) || has_key(rhs@, r@[t].0),
    {
        proof {
            use_type_invariant(&self);
            use_type_invariant(&rhs);
        }
        let ghost a = self@;
        let ghost b = rhs@;
        let neg = rhs.neg();
        let ghost nv = neg@;
        let r = self + neg;
        proof {
            assert forall|t: int| 0 <= t < r@.len() implies has_key(a, (#[trigger] r@[t]).0) || has_key(b, r@[t].0) by {
                if !has_key(a, r@[t].0) {
                    let i = choose|i: int| 0 <= i < nv.len() && nv[i].0 == r@[t].0;
                    assert(nv[i].0 == b[i].0);
                }
            }
        }
        proof {
            if a.len() > 0 {
                let pp = a[0].1.field.p as int;
                assert forall|x: Seq<int>| #[trigger] mp_eval(r@, x) % pp == (mp_eval(a, x) - mp_eval(b, x))
                    % pp by {
                    if b.len() > 0 {
                        lemma_mod_add_congruent(mp_eval(nv, x), -mp_eval(b, x), mp_eval(a, x), pp);
                    }
                }
            }
        }
        proof {
            assert forall|k: Seq<usize>| #[trigger] r.coeff_of(k) == (if a.len() == 0 {
                if b.len() == 0 {
                    0
                } else {
                    (-mp_coeff(b, k)) % (b[0].1.field.p as int)
                }
            } else if b.len() == 0 {
                mp_coeff(a, k)
            } else {
                (mp_coeff(a, k) - mp_coeff(b, k)) % (a[0].1.field.p as int)
            }) by {
                if a.len() > 0 {
                    let pp = a[0].1.field.p as int;
                    if b.len() == 0 {
                        if exists|x: int| 0 <= x < a.len() && a[x].0 == k {
                            let x = choose|x: int| 0 <= x < a.len() && a[x].0 == k;
                            lemma_mp_coeff_at(a, x);
                            lemma_small_mod(a[x].1.value as nat, pp as nat);
                        } else {
                            lemma_mp_coeff_absent(a, k);
                            lemma_small_mod(0, pp as nat);
                        }
                    } else {
                        lemma_add_mod_noop_right(mp_coeff(a, k), -mp_coeff(b, k), pp);
                    }
                }
            }
        }
        r
    }
}

impl vstd::std_specs::ops::SubSpecImpl for MPolynomial {
    open spec fn obeys_sub_spec() -> bool {
        false
    }

    open spec fn sub_req(self, rhs: MPolynomial) -> bool {
        self@.len() > 0 && rhs@.len() > 0 ==> self.field_spec() == rhs.field_spec()
    }

    open spec fn sub_spec(self, rhs: MPolynomial) -> MPolynomial {
        self
    }
}

impl core::ops::Mul for MPolynomial {
    type Output = MPolynomial;

    fn mul(self, rhs: MPolynomial) -> (r: MPolynomial)
        ensures
            forall|k: Seq<usize>| #[trigger] r.coeff_of(k) == (if self@.len() == 0 || rhs@.len() == 0 {
                0
            } else {
                pair_sum(self@, rhs@, k, self@.len()) % (self.field_spec().p as int)
            }),
            self@.len() == 0 || rhs@.len() == 0 ==> r@.len() == 0,
            self@.len() > 0 && rhs@.len() > 0 ==> mp_in_field(r@, self.field_spec()),
            self@.len() > 0 && rhs@.len() > 0 ==> forall|x: Seq<int>| #[trigger] mp_eval(r@, x) % (
            self.field_spec().p as int) == (mp_eval(self@, x) * mp_eval(rhs@, x)) % (
            self.field_spec().p as int),
            forall|t: int| 0 <= t < r@.len() ==> from_pair(self@, rhs@, (#[trigger] r@[t]).0),
    {
        proof {
            use_type_invariant(&self);
            use_type_invariant(&rhs);
        }
        if self.terms.len() == 0 || rhs.terms.len() == 0 {
            return MPolynomial { terms: Vec::new() };
        }
        let ghost a = self@;
        let ghost b = rhs@;
        let ghost f = a[0].1.field;
        let ghost p = f.p as int;
        let mut terms: Vec<(Vec<usize>, FieldElement)> = Vec::new();
        proof {
            lemma_small_mod(0, p as nat);
            assert(a.take(0) =~= Seq::<(Seq<usize>, FieldElement)>::empty());
        }
        let mut i: usize = 0;
        while i < self.terms.len()
            invariant
                a == self@,
                b == rhs@,
                mp_wf(a),
                mp_wf(b),
                a.len() > 0,
                b.len() > 0,
                f == a[0].1.field,
                b[0].1.field == f,
                p == f.p,
                p > 0,
                exponent_sums_fit(a, b),
                i <= a.len(),
                mp_wf(term_views(terms@)),
                mp_in_field(term_views(terms@), f),
                forall|k: Seq<usize>| #[trigger] mp_coeff(term_views(terms@), k) == pair_sum(a, b, k, i as nat) % p,
                forall|x: Seq<int>| #[trigger] mp_eval(term_views(terms@), x) % p == (mp_eval(a.take(i as int), x)
                    * mp_eval(b, x)) % p,
                forall|t: int| 0 <= t < terms@.len() ==> from_pair(a, b, (#[trigger] term_views(terms@)[t]).0),
            decreases a.len() - i,
        {
            let mut j: usize = 0;
            proof {
                assert(b.take(0) =~= Seq::<(Seq<usize>, FieldElement)>::empty());
            }
            while j < rhs.terms.len()
                invariant
                    a == self@,
                    b == rhs@,
                    mp_wf(a),
                    mp_wf(b),
                    a.len() > 0,
                    b.len() > 0,
                    f == a[0].1.field,
                    b[0].1.field == f,
                    p == f.p,
                    p > 0,
                    exponent_sums_fit(a, b),
                    i < a.len(),
                    j <= b.len(),
                    mp_wf(term_views(terms@)),
                    mp_in_field(term_views(terms@), f),
                    forall|k: Seq<usize>| #[trigger] mp_coeff(term_views(terms@), k) == (pair_sum(a, b, k, i as nat)
                        + row_sum(a[i as int], b, k, j as nat)) % p,
                    forall|x: Seq<int>| #[trigger] mp_eval(term_views(terms@), x) % p == (mp_eval(a.take(i as int), x)
                        * mp_eval(b, x) + a[i as int].1.value * monomial_value(a[i as int].0, x) * mp_eval(
                        b.take(j as int),
                        x,
                    )) % p,
                    forall|t: int| 0 <= t < terms@.len() ==> from_pair(a, b, (#[trigger] term_views(terms@)[t]).0),
                decreases b.len() - j,
            {
                let left = self.terms[i].1;
                let right = rhs.terms[j].1;
                proof {
                    assert(a[i as int] == (self.terms@[i as int].0@, left));
                    assert(b[j as int] == (rhs.terms@[j as int].0@, right));
                    assert(left.field == f && left.wf());
                    assert(right.field == f && right.wf());
                    assert forall|t: int|
                        #![trigger exponent_at(self.terms@[i as int].0@, t), exponent_at(rhs.terms@[j as int].0@, t)]
                        exponent_at(self.terms@[i as int].0@, t) + exponent_at(rhs.terms@[j as int].0@, t)
                            <= usize::MAX by {
                        assert(exponent_at(a[i as int].0, t) + exponent_at(b[j as int].0, t) <= usize::MAX);
                    }
                }
                let key = exponents_add(&self.terms[i].0, &rhs.terms[j].0);
                let c = left * right;
                let ghost before = term_views(terms@);
                add_term(&mut terms, key, c);
                proof {
                    assert forall|k: Seq<usize>| #[trigger] mp_coeff(term_views(terms@), k) == (pair_sum(a, b, k, i as nat)
                        + row_sum(a[i as int], b, k, (j + 1) as nat)) % p by {
                        let ps = pair_sum(a, b, k, i as nat);
                        let rs = row_sum(a[i as int], b, k, j as nat);
                        assert(mp_coeff(before, k) == (ps + rs) % p);
                        if k == key@ {
                            lemma_add_mod_noop(ps + rs, left.value * right.value, p);
                            lemma_mod_twice(ps + rs, p);
                            lemma_add_mod_noop(ps + rs, left.value * right.value, p);
                        }
                    }
                    let after = term_views(terms@);
                    assert forall|t: int| 0 <= t < after.len() implies from_pair(a, b, (#[trigger] after[t]).0) by {
                        if after[t].0 == key@ {
                            assert(exponents_sum(a[i as int].0, b[j as int].0) == after[t].0);
                        } else {
                            let w = choose|w: int| 0 <= w < before.len() && before[w].0 == after[t].0;
                            assert(from_pair(a, b, before[w].0));
                        }
                    }
                    let bj = b.take(j + 1);
                    assert(bj.drop_last() =~= b.take(j as int));
                    assert(bj.last() == b[j as int]);
                    assert forall|x: Seq<int>| #[trigger] mp_eval(after, x) % p == (mp_eval(a.take(i as int), x)
                        * mp_eval(b, x) + a[i as int].1.value * monomial_value(a[i as int].0, x) * mp_eval(bj, x))
                        % p by {
                        let ma = monomial_value(a[i as int].0, x);
                        let mb = monomial_value(b[j as int].0, x);
                        let mk = monomial_value(key@, x);
                        let av = left.value as int;
                        let bv = right.value as int;
                        let old_e = mp_eval(before, x);
                        let s_i = mp_eval(a.take(i as int), x) * mp_eval(b, x);
                        let bj0 = mp_eval(b.take(j as int), x);
                        lemma_monomial_of_product(a[i as int].0, b[j as int].0, x);
                        lemma_add_scaled_mod(old_e, av * bv, mk, p);
                        lemma_mod_add_congruent(old_e, s_i + av * ma * bj0, av * bv * mk, p);
                        assert(s_i + av * ma * bj0 + av * bv * (ma * mb) == s_i + av * ma * (bj0 + bv * mb))
                            by (nonlinear_arith);
                    }
                }
                j = j + 1;
            }
            proof {
                let ai = a.take(i + 1);
                assert(ai.drop_last() =~= a.take(i as int));
                assert(ai.last() == a[i as int]);
                assert(b.take(b.len() as int) =~= b);
                assert forall|x: Seq<int>| #[trigger] mp_eval(term_views(terms@), x) % p == (mp_eval(ai, x)
                    * mp_eval(b, x)) % p by {
                    let ea = mp_eval(a.take(i as int), x);
                    let eb = mp_eval(b, x);
                    let av = a[i as int].1.value as int;
                    let ma = monomial_value(a[i as int].0, x);
                    assert(ea * eb + av * ma * eb == (ea + av * ma) * eb) by (nonlinear_arith);
                }
                assert forall|k: Seq<usize>| #[trigger] mp_coeff(term_views(terms@), k) == pair_sum(a, b, k, (i + 1) as nat) % p by {
                    assert(mp_coeff(term_views(terms@), k) == (pair_sum(a, b, k, i as nat)
                        + row_sum(a[i as int], b, k, b.len())) % p);
                }
            }
            i = i + 1;
        }
        proof {
            assert(a.take(a.len() as int) =~= a);
        }
        MPolynomial { terms }
    }
}

impl vstd::std_specs::ops::MulSpecImpl for MPolynomial {
    open spec fn obeys_mul_spec() -> bool {
        false
    }

    open spec fn mul_req(self, rhs: MPolynomial) -> bool {
        self@.len() > 0 && rhs@.len() > 0 ==> self.field_spec() == rhs.field_spec() && exponent_sums_fit(
            self@,
            rhs@,
        )
    }

    open spec fn mul_spec(self, rhs: MPolynomial) -> MPolynomial {
        self
    }
}

/// `e >> c` is twice `e >> (c + 1)` plus bit `c` of `e`.
proof fn lemma_shift_step(e: u64, c: u64)
    requires
        c < 64,
    ensures
        e >> c == 2 * (e >> ((c + 1) as u64)) + ((e >> c) & 1),
        e >> c <= e,
        (e >> c) & 1 <= 1,
{
    assert(c < 64 ==> e >> c == 2 * (e >> ((c + 1) as u64)) + ((e >> c) & 1)) by (bit_vector);
    assert(e >> c <= e) by (bit_vector);
    assert((e >> c) & 1 <= 1) by (bit_vector);
}

impl MPolynomial {
    /// Raises the polynomial to a non-negative integer power by
    /// square-and-multiply over the bits of `exponent`; the zero polynomial
    /// stays zero for every exponent.
    pub fn pow(&self, exponent: u64) -> (r: MPolynomial)
        requires
            max_exponent(self@) * exponent <= usize::MAX,
        ensures
            self@.len() == 0 ==> r@.len() == 0,
            self@.len() > 0 ==> mp_in_field(r@, self.field_spec()),
            self@.len() > 0 ==> forall|x: Seq<int>| #[trigger] mp_eval(r@, x) % (self.field_spec().p as int)
                == pow(mp_eval(self@, x), exponent as nat) % (self.field_spec().p as int),
            exponents_bounded(r@, max_exponent(self@) * exponent),
    {
        proof {
            use_type_invariant(self);
            lemma_max_exponent(self@);
        }
        if self.terms.len() == 0 {
            return MPolynomial::zero();
        }
        let ghost a = self@;
        let ghost f = a[0].1.field;
        let ghost p = f.p as int;
        let ghost bound = max_exponent(a);
        let field = self.terms[0].1.field;
        proof {
            assert(a[0] == (self.terms@[0].0@, self.terms@[0].1));
        }
        let one = field.one();
        let mut acc = MPolynomial::constant(one);
        proof {
            assert forall|x: Seq<int>| #[trigger] mp_eval(acc@, x) % p == pow(mp_eval(a, x), 0) % p by {
                reveal(pow);
                if one.value != 0 {
                    let single = acc@;
                    assert(single.len() == 1);
                    assert(single.drop_last() =~= Seq::<(Seq<usize>, FieldElement)>::empty());
                    assert(mp_eval(single.drop_last(), x) == 0);
                    assert(single[0].0.len() == 0);
                    assert(monomial_value(single[0].0, x) == 1);
                    assert(mp_eval(single, x) == one.value as int);
                    assert(pow(mp_eval(a, x), 0) == 1);
                    lemma_mod_twice(1, p);
                } else {
                    assert(p == 1) by {
                        lemma_small_mod(1, p as nat);
                    }
                    lemma_mod_self_0(1);
                    lemma_small_mod(0, 1);
                }
            }
        }
        if exponent == 0 {
            return acc;
        }
        let lz = exponent.leading_zeros();
        let mut bit: u64 = 64 - (lz as u64);
        proof {
            vstd::std_specs::bits::axiom_u64_leading_zeros(exponent);
            assert(exponent >> bit == 0);
        }
        while bit > 0
            invariant
                a == self@,
                a.len() > 0,
                f == a[0].1.field,
                p == f.p,
                p > 0,
                field == f,
                bound == max_exponent(a),
                bound >= 0,
                exponents_bounded(a, bound),
                bound * exponent <= usize::MAX,
                bit <= 64,
                acc@.len() > 0 ==> mp_in_field(acc@, f),
                exponents_bounded(acc@, bound * (exponent >> bit)),
                forall|x: Seq<int>| #[trigger] mp_eval(acc@, x) % p == pow(mp_eval(a, x), (exponent >> bit) as nat)
                    % p,
            decreases bit,
        {
            let ghost v = exponent >> bit;
            bit = bit - 1;
            proof {
                lemma_shift_step(exponent, bit);
                assert(bound * (2 * v) <= bound * exponent) by (nonlinear_arith)
                    requires
                        bound >= 0,
                        2 * v <= exponent,
                ;
                assert(bound * v + bound * v == bound * (2 * v)) by (nonlinear_arith);
                lemma_bounded_fit(acc@, acc@, bound * v, bound * v);
            }
            let ghost before = acc@;
            let copy = acc.clone();
            acc = copy * acc;
            proof {
                lemma_product_bounded(before, before, acc@, bound * v, bound * v);
                assert forall|x: Seq<int>| #[trigger] mp_eval(acc@, x) % p == pow(mp_eval(a, x), (2 * v) as nat)
                    % p by {
                    let e = mp_eval(a, x);
                    lemma_pow_adds(e, v as nat, v as nat);
                    lemma_mul_congruent(mp_eval(before, x), mp_eval(before, x), pow(e, v as nat), pow(e, v as nat), p);
                }
            }
            if (exponent >> bit) & 1 == 1 {
                let ghost sq = acc@;
                proof {
                    assert(bound * (2 * v) + bound == bound * (2 * v + 1)) by (nonlinear_arith);
                    assert(bound * (2 * v + 1) <= bound * exponent) by (nonlinear_arith)
                        requires
                            bound >= 0,
                            2 * v + 1 <= exponent,
                    ;
                    lemma_bounded_fit(sq, a, bound * (2 * v), bound);
                }
                acc = acc * self.clone();
                proof {
                    lemma_product_bounded(sq, a, acc@, bound * (2 * v), bound);
                    assert forall|x: Seq<int>| #[trigger] mp_eval(acc@, x) % p == pow(
                        mp_eval(a, x),
                        (2 * v + 1) as nat,
                    ) % p by {
                        let e = mp_eval(a, x);
                        let es = mp_eval(sq, x);
                        lemma_pow_adds(e, (2 * v) as nat, 1);
                        lemma_pow1(e);
                        assert(es % p == pow(e, (2 * v) as nat) % p);
                        if sq.len() > 0 {
                            assert(mp_eval(acc@, x) % p == (es * e) % p);
                        } else {
                            assert(acc@.len() == 0);
                            assert(es == 0);
                            assert(mp_eval(acc@, x) == 0);
                            assert(es * e == 0) by (nonlinear_arith)
                                requires
                                    es == 0,
                            ;
                        }
                        lemma_mul_congruent(es, e, pow(e, (2 * v) as nat), e, p);
                    }
                }
            }
        }
        proof {
            assert(exponent >> 0u64 == exponent) by (bit_vector);
        }
        acc
    }
}

/// The exponent vector of the single variable `x_i`: zeros, then a one at `i`.
pub open spec fn unit_exponents(i: nat) -> Seq<usize> {
    Seq::new(i + 1, |t: int| if t == i { 1usize } else { 0usize })
}

/// The values of the coordinates of a point.
pub open spec fn point_values(point: Seq<FieldElement>) -> Seq<int> {
    point.map_values(|e: FieldElement| e.value as int)
}

/// Every term of `a` occurs in `b` with the same coefficient.
fn contained_in(a: &Vec<(Vec<usize>, FieldElement)>, b: &Vec<(Vec<usize>, FieldElement)>) -> (r: bool)
    requires
        mp_wf(term_views(a@)),
        mp_wf(term_views(b@)),
    ensures
        r == forall|i: int|
            0 <= i < a@.len() ==> mp_coeff(term_views(b@), (#[trigger] term_views(a@)[i]).0)
                == term_views(a@)[i].1.value,
{
    let ghost sa = term_views(a@);
    let ghost sb = term_views(b@);
    let mut i: usize = 0;
    while i < a.len()
        invariant
            sa == term_views(a@),
            sb == term_views(b@),
            mp_wf(sa),
            mp_wf(sb),
            i <= sa.len(),
            forall|u: int| 0 <= u < i ==> mp_coeff(sb, (#[trigger] sa[u]).0) == sa[u].1.value,
        decreases sa.len() - i,
    {
        proof {
            assert(sa[i as int] == (a@[i as int].0@, a@[i as int].1));
        }
        match find_term(b, &a[i].0) {
            Some(j) => {
                proof {
                    assert(sb[j as int] == (b@[j as int].0@, b@[j as int].1));
                    lemma_mp_coeff_at(sb, j as int);
                }
                if b[j].1.value != a[i].1.value {
                    return false;
                }
            },
            None => {
                proof {
                    lemma_mp_coeff_absent(sb, sa[i as int].0);
                }
                return false;
            },
        }
        i = i + 1;
    }
    true
}

/// All entries of `e` at most `bound` give `vec_max(e) <= bound`.
proof fn lemma_vec_max_bounded(e: Seq<usize>, bound: int)
    requires
        bound >= 0,
        forall|t: int| 0 <= t < e.len() ==> e[t] <= bound,
    ensures
        vec_max(e) <= bound,
    decreases e.len(),
{
    if e.len() > 0 {
        lemma_vec_max_bounded(e.drop_last(), bound);
    }
}

/// The monomial `x_i` evaluates to the `i`-th coordinate.
proof fn lemma_unit_monomial(i: nat, x: Seq<int>)
    ensures
        monomial_value(unit_exponents(i), x) == x[i as int],
{
    let u = unit_exponents(i);
    let empty = Seq::<usize>::empty();
    lemma_monomial_agree(u, empty, x, i);
    lemma_monomial_extend(empty, x, i);
    assert(exponent_at(u, i as int) == 1);
    lemma_pow1(x[i as int]);
}

impl PartialEq for MPolynomial {
    fn eq(&self, other: &MPolynomial) -> (r: bool) {
        proof {
            use_type_invariant(self);
            use_type_invariant(other);
        }
        let forward = contained_in(&self.terms, &other.terms);
        let backward = contained_in(&other.terms, &self.terms);
        let ghost a = self@;
        let ghost b = other@;
        proof {
            if forward && backward {
                assert forall|k: Seq<usize>| #[trigger] self.coeff_of(k) == other.coeff_of(k) by {
                    if exists|i: int| 0 <= i < a.len() && a[i].0 == k {
                        let i = choose|i: int| 0 <= i < a.len() && a[i].0 == k;
                        lemma_mp_coeff_at(a, i);
                    } else if exists|j: int| 0 <= j < b.len() && b[j].0 == k {
                        let j = choose|j: int| 0 <= j < b.len() && b[j].0 == k;
                        lemma_mp_coeff_at(b, j);
                    } else {
                        lemma_mp_coeff_absent(a, k);
                        lemma_mp_coeff_absent(b, k);
                    }
                }
            } else if !forward {
                let i = choose|i: int| 0 <= i < a.len() && !(mp_coeff(b, #[trigger] a[i].0) == a[i].1.value);
                lemma_mp_coeff_at(a, i);
                assert(self.coeff_of(a[i].0) != other.coeff_of(a[i].0));
            } else {
                let j = choose|j: int| 0 <= j < b.len() && !(mp_coeff(a, #[trigger] b[j].0) == b[j].1.value);
                lemma_mp_coeff_at(b, j);
                assert(self.coeff_of(b[j].0) != other.coeff_of(b[j].0));
            }
        }
        forward && backward
    }
}

impl vstd::std_specs::cmp::PartialEqSpecImpl for MPolynomial {
    open spec fn obeys_eq_spec() -> bool {
        true
    }

    open spec fn eq_spec(&self, other: &MPolynomial) -> bool {
        forall|k: Seq<usize>| #[trigger] self.coeff_of(k) == other.coeff_of(k)
    }
}

impl Eq for MPolynomial {

}

impl MPolynomial {
    /// Returns the coordinate polynomials `x_0, ..., x_{n-1}`.
    pub fn variables(num_variables: usize, field: &Field) -> (r: Vec<MPolynomial>)
        requires
            field.p > 0,
        ensures
            r@.len() == num_variables,
            forall|i: int|
                0 <= i < num_variables ==> field.p > 1 ==> (#[trigger] r@[i])@ == seq![
                    (unit_exponents(i as nat), field.element_of(1)),
                ],
            forall|i: int| 0 <= i < num_variables ==> field.p == 1 ==> (#[trigger] r@[i])@.len() == 0,
            forall|i: int| 0 <= i < num_variables ==> mp_in_field((#[trigger] r@[i])@, *field),
            forall|i: int| 0 <= i < num_variables ==> max_exponent((#[trigger] r@[i])@) <= 1,
            forall|i: int, x: Seq<int>|
                0 <= i < num_variables ==> #[trigger] mp_eval(r@[i]@, x) % (field.p as int) == x[i] % (
                field.p as int),
    {
        let mut out: Vec<MPolynomial> = Vec::new();
        let one = field.one();
        let ghost p = field.p as int;
        let mut index: usize = 0;
        while index < num_variables
            invariant
                index <= num_variables,
                out@.len() == index,
                field.p > 0,
                p == field.p,
                one == field.element_of(1),
                one.wf(),
                forall|i: int|
                    0 <= i < index ==> field.p > 1 ==> (#[trigger] out@[i])@ == seq![
                        (unit_exponents(i as nat), field.element_of(1)),
                    ],
                forall|i: int| 0 <= i < index ==> field.p == 1 ==> (#[trigger] out@[i])@.len() == 0,
                forall|i: int| 0 <= i < index ==> mp_in_field((#[trigger] out@[i])@, *field),
                forall|i: int| 0 <= i < index ==> max_exponent((#[trigger] out@[i])@) <= 1,
                forall|i: int, x: Seq<int>|
                    0 <= i < index ==> #[trigger] mp_eval(out@[i]@, x) % p == x[i] % p,
            decreases num_variables - index,
        {
            let mut key: Vec<usize> = Vec::new();
            let mut t: usize = 0;
            while t < index
                invariant
                    t <= index,
                    key@.len() == t,
                    forall|u: int| 0 <= u < t ==> key@[u] == 0,
                decreases index - t,
            {
                key.push(0);
                t = t + 1;
            }
            key.push(1);
            proof {
                assert(key@ =~= unit_exponents(index as nat));
            }
            let mut terms: Vec<(Vec<usize>, FieldElement)> = Vec::new();
            if one.value != 0 {
                terms.push((key, one));
            }
            let ghost s = term_views(terms@);
            proof {
                if one.value != 0 {
                    assert(s =~= seq![(unit_exponents(index as nat), field.element_of(1))]);
                    assert(s.drop_last() =~= Seq::<(Seq<usize>, FieldElement)>::empty());
                    lemma_vec_max_bounded(unit_exponents(index as nat), 1);
                    assert(max_exponent(s.drop_last()) == 0);
                    assert(max_exponent(s) <= 1);
                    lemma_small_mod(1, p as nat);
                    assert(one.value == 1);
                    assert forall|x: Seq<int>| #[trigger] mp_eval(s, x) % p == x[index as int] % p by {
                        lemma_unit_monomial(index as nat, x);
                        assert(mp_eval(s.drop_last(), x) == 0);
                        assert(s.len() == 1);
                        assert(s.last() == (unit_exponents(index as nat), one));
                        assert(mp_eval(s, x) == mp_eval(s.drop_last(), x) + s.last().1.value * monomial_value(
                            s.last().0,
                            x,
                        ));
                        assert(monomial_value(s.last().0, x) == x[index as int]);
                        let lv = s.last().1.value as int;
                        let mv = monomial_value(s.last().0, x);
                        assert(lv * mv == mv) by (nonlinear_arith)
                            requires
                                lv == 1,
                        ;
                        assert(mp_eval(s, x) == x[index as int]);
                    }
                } else {
                    assert(p == 1) by {
                        if p > 1 {
                            lemma_small_mod(1, p as nat);
                        }
                    }
                    assert forall|x: Seq<int>| #[trigger] mp_eval(s, x) % p == x[index as int] % p by {
                        lemma_mod_self_0(1);
                        lemma_small_mod(0, 1);
                    }
                }
                if p > 1 {
                    lemma_small_mod(1, p as nat);
                }
            }
            let v = MPolynomial { terms };
            out.push(v);
            proof {
                assert(out@[index as int]@ == s);
            }
            index = index + 1;
        }
        out
    }

    /// The field in which `evaluate` computes: that of the coefficients,
    /// or of the point for the zero polynomial.
    pub open spec fn evaluation_field(&self, point: Seq<FieldElement>) -> Field {
        if self@.len() > 0 {
            self.field_spec()
        } else {
            point[0].field
        }
    }

    /// Evaluates the polynomial at a field-valued point.
    pub fn evaluate(&self, point: &[FieldElement]) -> (r: FieldElement)
        requires
            self@.len() > 0 || point@.len() > 0,
            forall|i: int|
                0 <= i < point@.len() ==> (#[trigger] point@[i]).wf() && point@[i].field
                    == self.evaluation_field(point@),
            forall|i: int| 0 <= i < self@.len() ==> (#[trigger] self@[i]).0.len() <= point@.len(),
        ensures
            r == self.evaluation_field(point@).element_of(mp_eval(self@, point_values(point@))),
            r.wf(),
    {
        proof {
            use_type_invariant(self);
        }
        let ghost s = self@;
        let ghost vals = point_values(point@);
        let field = if self.terms.len() > 0 {
            proof {
                assert(s[0] == (self.terms@[0].0@, self.terms@[0].1));
            }
            self.terms[0].1.field
        } else {
            point[0].field
        };
        let ghost p = field.p as int;
        proof {
            if s.len() > 0 {
                assert(s[0].1.wf());
            } else {
                assert(point@[0].wf());
            }
            assert(s.take(0) =~= Seq::<(Seq<usize>, FieldElement)>::empty());
            lemma_small_mod(0, p as nat);
        }
        let mut acc = field.zero();
        let mut i: usize = 0;
        while i < self.terms.len()
            invariant
                s == self@,
                mp_wf(s),
                vals == point_values(point@),
                field == self.evaluation_field(point@),
                p == field.p,
                p > 0,
                forall|u: int| 0 <= u < point@.len() ==> (#[trigger] point@[u]).wf() && point@[u].field == field,
                forall|u: int| 0 <= u < s.len() ==> (#[trigger] s[u]).0.len() <= point@.len(),
                i <= s.len(),
                acc == field.element_of(mp_eval(s.take(i as int), vals)),
            decreases s.len() - i,
        {
            proof {
                assert(s[i as int] == (self.terms@[i as int].0@, self.terms@[i as int].1));
            }
            let exps = &self.terms[i].0;
            let ghost e = exps@;
            let ghost cv = self.terms@[i as int].1.value as int;
            let mut product = self.terms[i].1;
            proof {
                assert(product.wf());
                lemma_small_mod(cv as nat, p as nat);
                assert(cv * monomial_upto(e, vals, 0) == cv);
            }
            let mut t: usize = 0;
            while t < exps.len()
                invariant
                    e == exps@,
                    e.len() <= point@.len(),
                    vals == point_values(point@),
                    p == field.p,
                    p > 0,
                    forall|u: int| 0 <= u < point@.len() ==> (#[trigger] point@[u]).wf() && point@[u].field == field,
                    t <= e.len(),
                    product == field.element_of(cv * monomial_upto(e, vals, t as nat)),
                decreases e.len() - t,
            {
                let pw = point[t].pow(exps[t] as u64);
                let ghost m = monomial_upto(e, vals, t as nat);
                let ghost pv = pow(vals[t as int], e[t as int] as nat);
                proof {
                    assert(point@[t as int].field == field);
                    assert(vals[t as int] == point@[t as int].value);
                    assert(exponent_at(e, t as int) == e[t as int]);
                    lemma_mul_mod_noop_general(cv * m, pv, p);
                    assert(cv * m * pv == cv * (m * pv)) by (nonlinear_arith);
                }
                product = product * pw;
                t = t + 1;
            }
            let ghost mono = monomial_value(e, vals);
            let ghost before = s.take(i as int);
            acc = acc + product;
            proof {
                let after = s.take(i + 1);
                assert(after.drop_last() =~= before);
                assert(after.last() == s[i as int]);
                lemma_add_mod_noop(mp_eval(before, vals), cv * mono, p);
            }
            i = i + 1;
        }
        proof {
            assert(s.take(s.len() as int) =~= s);
        }
        acc
    }
}

impl core::ops::BitXor<u64> for MPolynomial {
    type Output = MPolynomial;

    fn bitxor(self, rhs: u64) -> (r: MPolynomial)
        ensures
            self@.len() == 0 ==> r@.len() == 0,
            self@.len() > 0 ==> mp_in_field(r@, self.field_spec()),
            self@.len() > 0 ==> forall|x: Seq<int>| #[trigger] mp_eval(r@, x) % (self.field_spec().p as int)
                == pow(mp_eval(self@, x), rhs as nat) % (self.field_spec().p as int),
    {
        self.pow(rhs)
    }
}

impl vstd::std_specs::ops::BitXorSpecImpl<u64> for MPolynomial {
    open spec fn obeys_bitxor_spec() -> bool {
        false
    }

    open spec fn bitxor_req(self, rhs: u64) -> bool {
        max_exponent(self@) * rhs <= usize::MAX
    }

    open spec fn bitxor_spec(self, rhs: u64) -> MPolynomial {
        self
    }
}

impl MPolynomial {
    /// Lifts a univariate polynomial into the variable at `variable_index`:
    /// `Σ c_i x^i` becomes `Σ c_i x_v^i`.
    pub fn lift(polynomial: &Polynomial, variable_index: usize) -> (r: MPolynomial)
        requires
            polynomial.wf(),
            variable_index < usize::MAX,
        ensures
            polynomial@.len() == 0 ==> r@.len() == 0,
            polynomial@.len() > 0 ==> mp_in_field(r@, polynomial.field_spec()),
            polynomial@.len() > 0 ==> forall|x: Seq<int>| #[trigger] mp_eval(r@, x) % (
            polynomial.field_spec().p as int) == poly_eval(polynomial@, x[variable_index as int]) % (
            polynomial.field_spec().p as int),
            exponents_bounded(r@, polynomial@.len() as int),
    {
        if polynomial.is_zero() {
            return MPolynomial::zero();
        }
        let coefficients = polynomial.coefficients();
        let ghost cs = polynomial@;
        let ghost v = variable_index as int;
        let field = coefficients[0].field;
        let ghost p = field.p as int;
        proof {
            assert(cs[0].wf());
        }
        let mut variables = MPolynomial::variables(variable_index + 1, &field);
        let ghost vs = variables@;
        let x = variables.pop().unwrap();
        proof {
            assert(x == vs[v]);
            lemma_max_exponent(x@);
        }
        let mut acc = MPolynomial::zero();
        let mut degree: usize = 0;
        while degree < coefficients.len()
            invariant
                cs == polynomial@,
                coefficients@ == cs,
                poly_wf(cs),
                cs.len() > 0,
                field == cs[0].field,
                p == field.p,
                p > 0,
                degree <= cs.len(),
                field.p > 1 ==> x@.len() > 0,
                x@.len() > 0 ==> mp_in_field(x@, field),
                0 <= max_exponent(x@) <= 1,
                exponents_bounded(x@, max_exponent(x@)),
                forall|y: Seq<int>| #[trigger] mp_eval(x@, y) % p == y[v] % p,
                acc@.len() > 0 ==> mp_in_field(acc@, field),
                exponents_bounded(acc@, cs.len() as int),
                forall|y: Seq<int>| #[trigger] mp_eval(acc@, y) % p == eval_upto(cs, y[v], degree as nat) % p,
            decreases cs.len() - degree,
        {
            let c = coefficients[degree];
            proof {
                assert(c.wf() && c.field == field);
                let m = max_exponent(x@);
                let d = degree as int;
                assert(m * d <= d) by (nonlinear_arith)
                    requires
                        0 <= m <= 1,
                        d >= 0,
                ;
            }
            let cm = MPolynomial::constant(c);
            let xd = x.pow(degree as u64);
            proof {
                lemma_max_exponent(cm@);
                if c.value != 0 {
                    assert(cm@.drop_last() =~= Seq::<(Seq<usize>, FieldElement)>::empty());
                    assert(max_exponent(cm@.drop_last()) == 0);
                    assert(cm@.last().0 == Seq::<usize>::empty());
                    assert(vec_max(cm@.last().0) == 0);
                    assert(max_exponent(cm@) == 0);
                }
                lemma_bounded_fit(cm@, xd@, 0, max_exponent(x@) * degree as int);
            }
            let term = cm * xd;
            let ghost before = acc@;
            acc = acc + term;
            proof {
                let m = max_exponent(x@);
                let d = degree as int;
                assert(m * d <= d) by (nonlinear_arith)
                    requires
                        0 <= m <= 1,
                        d >= 0,
                ;
                lemma_product_bounded(cm@, xd@, term@, 0, m * d);
                assert forall|i: int, t: int| 0 <= i < term@.len() implies exponent_at(term@[i].0, t) <= cs.len() as int by {
                    assert(exponent_at(term@[i].0, t) <= m * d);
                }
                lemma_keys_bounded(before, term@, acc@, cs.len() as int);
            }
            proof {
                assert forall|y: Seq<int>| #[trigger] mp_eval(acc@, y) % p == eval_upto(cs, y[v], (degree + 1) as nat)
                    % p by {
                    let d = degree as nat;
                    let xv = y[v];
                    let e_c = mp_eval(cm@, y);
                    let e_xd = mp_eval(xd@, y);
                    let e_t = mp_eval(term@, y);
                    // the constant evaluates to its coefficient
                    if c.value != 0 {
                        assert(cm@.drop_last() =~= Seq::<(Seq<usize>, FieldElement)>::empty());
                        assert(mp_eval(cm@.drop_last(), y) == 0);
                        assert(monomial_value(cm@.last().0, y) == 1);
                        let cvv = c.value as int;
                        assert(cvv * 1 == cvv);
                        assert(e_c == c.value);
                    } else {
                        assert(e_c == 0);
                    }
                    // x^d evaluates to a power of the coordinate
                    if x@.len() > 0 {
                        lemma_pow_congruent(mp_eval(x@, y), xv, d, p);
                        assert(e_xd % p == pow(xv, d) % p);
                    } else {
                        assert(p == 1);
                        assert(e_xd % p == pow(xv, d) % p);
                    }
                    // the term evaluates to the product
                    if cm@.len() > 0 && xd@.len() > 0 {
                        assert(e_t % p == (e_c * e_xd) % p);
                    } else {
                        assert(e_t == 0);
                        if cm@.len() == 0 {
                            assert(e_c == 0);
                        } else {
                            assert(e_xd == 0);
                        }
                        assert(e_c * e_xd == 0) by (nonlinear_arith)
                            requires
                                e_c == 0 || e_xd == 0,
                        ;
                    }
                    lemma_mul_congruent(e_c, e_xd, c.value as int, pow(xv, d), p);
                    // the sum
                    if before.len() > 0 {
                        assert(mp_eval(acc@, y) % p == (mp_eval(before, y) + e_t) % p);
                    } else {
                        assert(acc@ == term@);
                        assert(mp_eval(before, y) == 0);
                    }
                    lemma_add_congruent2(
                        mp_eval(before, y),
                        eval_upto(cs, xv, d),
                        e_t,
                        c.value * pow(xv, d),
                        p,
                    );
                    lemma_mod_twice(mp_eval(before, y) + e_t, p);
                }
            }
            degree = degree + 1;
        }
        acc
    }
}

/// The values at `z` of a list of univariate polynomials.
pub open spec fn point_evals(pts: Seq<Polynomial>, z: int) -> Seq<int> {
    pts.map_values(|q: Polynomial| poly_eval(q@, z))
}

/// Room that `evaluate_symbolic` needs for the first `n` factors of a
/// term with exponents `e`: lengths of the partial products stay below it.
pub open spec fn symbolic_cost(e: Seq<usize>, pts: Seq<Seq<FieldElement>>, n: nat) -> int
    decreases n,
{
    if n == 0 {
        2
    } else {
        symbolic_cost(e, pts, (n - 1) as nat) + pts[n - 1].len() * (e[n - 1] + 1)
    }
}

/// No term raises a zero polynomial of the point to the power zero (the
/// power of a zero polynomial is zero for every exponent).
pub open spec fn zero_powers_defined(s: Seq<(Seq<usize>, FieldElement)>, pts: Seq<Polynomial>) -> bool {
    forall|i: int, t: int|
        0 <= i < s.len() && 0 <= t < s[i].0.len() && (#[trigger] s[i].0[t]) == 0 ==> pts[t]@.len() > 0
}

/// The cost grows with the number of factors.
proof fn lemma_symbolic_cost_grows(e: Seq<usize>, pts: Seq<Seq<FieldElement>>, n: nat, m: nat)
    requires
        n <= m,
    ensures
        2 <= symbolic_cost(e, pts, n) <= symbolic_cost(e, pts, m),
    decreases m,
{
    if m > 0 {
        let k = (m - 1) as int;
        assert(pts[k].len() * (e[k] + 1) >= 0) by (nonlinear_arith);
        if n < m {
            lemma_symbolic_cost_grows(e, pts, n, (m - 1) as nat);
        } else {
            lemma_symbolic_cost_grows(e, pts, (m - 1) as nat, (m - 1) as nat);
        }
    }
}

/// The coefficients of `c · Π_{t<n} point[t]^{e_t}`.
pub open spec fn symbolic_term(e: Seq<usize>, c: FieldElement, pts: Seq<Seq<FieldElement>>, n: nat) -> Seq<FieldElement>
    decreases n,
{
    if n == 0 {
        strip_zeros(seq![c])
    } else {
        poly_mul(symbolic_term(e, c, pts, (n - 1) as nat), poly_pow(pts[n - 1], e[n - 1] as nat))
    }
}

/// The coefficients of the sum of the first `i` terms of `s`, each
/// evaluated at the symbolic point `pts`.
pub open spec fn symbolic_sum(s: Seq<(Seq<usize>, FieldElement)>, pts: Seq<Seq<FieldElement>>, i: nat) -> Seq<FieldElement>
    decreases i,
{
    if i == 0 {
        Seq::empty()
    } else {
        let k = i - 1;
        poly_add(symbolic_sum(s, pts, k as nat), symbolic_term(s[k].0, s[k].1, pts, s[k].0.len()))
    }
}

impl MPolynomial {
    /// Evaluates the polynomial at a symbolic point of univariate
    /// polynomials: `Σ c_i Π_t point[t]^{e_it}`.
    pub fn evaluate_symbolic(&self, point: &[Polynomial]) -> (r: Polynomial)
        requires
            forall|t: int| 0 <= t < point@.len() ==> (#[trigger] point@[t]).wf(),
            self@.len() > 0 ==> forall|t: int|
                0 <= t < point@.len() && (#[trigger] point@[t])@.len() > 0 ==> point@[t].field_spec()
                    == self.field_spec(),
            forall|i: int| 0 <= i < self@.len() ==> (#[trigger] self@[i]).0.len() <= point@.len(),
            forall|i: int|
                0 <= i < self@.len() ==> symbolic_cost((#[trigger] self@[i]).0, poly_views(point@), self@[i].0.len())
                    <= usize::MAX,
        ensures
            r.wf(),
            self@.len() == 0 ==> r@.len() == 0,
            self@.len() > 0 && r@.len() > 0 ==> r.field_spec() == self.field_spec(),
            self@.len() > 0 && zero_powers_defined(self@, point@) ==> forall|z: int| #[trigger] poly_eval(r@, z) % (
            self.field_spec().p as int) == mp_eval(self@, point_evals(point@, z)) % (
            self.field_spec().p as int),
            r@ == symbolic_sum(self@, poly_views(point@), self@.len()),
    {
        proof {
            use_type_invariant(self);
        }
        let ghost s = self@;
        let ghost pts = point@;
        let empty: Vec<FieldElement> = Vec::new();
        proof {
            assert(empty@ =~= Seq::<FieldElement>::empty());
        }
        let mut acc = Polynomial::new(empty);
        if self.terms.len() == 0 {
            return acc;
        }
        proof {
            assert(s[0] == (self.terms@[0].0@, self.terms@[0].1));
            assert(s[0].1.wf());
            assert(s.take(0) =~= Seq::<(Seq<usize>, FieldElement)>::empty());
        }
        let field = self.terms[0].1.field;
        let ghost p = field.p as int;
        let mut i: usize = 0;
        while i < self.terms.len()
            invariant
                s == self@,
                pts == point@,
                mp_wf(s),
                s.len() > 0,
                field == s[0].1.field,
                p == field.p,
                p > 0,
                forall|t: int| 0 <= t < pts.len() ==> (#[trigger] pts[t]).wf(),
                forall|t: int| 0 <= t < pts.len() && (#[trigger] pts[t])@.len() > 0 ==> pts[t].field_spec() == field,
                forall|u: int| 0 <= u < s.len() ==> (#[trigger] s[u]).0.len() <= pts.len(),
                forall|u: int| 0 <= u < s.len() ==> symbolic_cost((#[trigger] s[u]).0, poly_views(pts), s[u].0.len()) <= usize::MAX,
                i <= s.len(),
                acc.wf(),
                acc@.len() > 0 ==> acc.field_spec() == field,
                acc@ == symbolic_sum(s, poly_views(pts), i as nat),
                zero_powers_defined(s, pts) ==> forall|z: int| #[trigger] poly_eval(acc@, z) % p == mp_eval(
                    s.take(i as int),
                    point_evals(pts, z),
                ) % p,
            decreases s.len() - i,
        {
            proof {
                assert(s[i as int] == (self.terms@[i as int].0@, self.terms@[i as int].1));
            }
            let c = self.terms[i].1;
            let exps = &self.terms[i].0;
            let ghost e = exps@;
            let ghost cv = c.value as int;
            let single = vec![c];
            proof {
                assert(single@ =~= seq![c]);
                assert(c.wf() && c.field == field);
                lemma_strip_zeros(seq![c]);
                lemma_symbolic_cost_grows(e, poly_views(pts), 0, e.len());
            }
            let mut product = Polynomial::new(single);
            proof {
                assert forall|z: int| #[trigger] poly_eval(product@, z) % p == (cv * monomial_upto(
                    e,
                    point_evals(pts, z),
                    0,
                )) % p by {
                    lemma_eval_constant(c, z);
                }
            }
            let mut t: usize = 0;
            while t < exps.len()
                invariant
                    e == exps@,
                    e == s[i as int].0,
                    cv == s[i as int].1.value,
                    0 <= i < s.len(),
                    e.len() <= pts.len(),
                    pts == point@,
                    p == field.p,
                    p > 0,
                    forall|t: int| 0 <= t < pts.len() ==> (#[trigger] pts[t]).wf(),
                    forall|t: int| 0 <= t < pts.len() && (#[trigger] pts[t])@.len() > 0 ==> pts[t].field_spec() == field,
                    symbolic_cost(e, poly_views(pts), e.len()) <= usize::MAX,
                    t <= e.len(),
                    product.wf(),
                    product@.len() > 0 ==> product.field_spec() == field,
                    product@ == symbolic_term(e, s[i as int].1, poly_views(pts), t as nat),
                    product@.len() + 1 <= symbolic_cost(e, poly_views(pts), t as nat),
                    zero_powers_defined(s, pts) ==> forall|z: int| #[trigger] poly_eval(product@, z) % p == (cv
                        * monomial_upto(e, point_evals(pts, z), t as nat)) % p,
                decreases e.len() - t,
            {
                let ghost q = pts[t as int];
                let ghost et = e[t as int];
                proof {
                    lemma_symbolic_cost_grows(e, poly_views(pts), (t + 1) as nat, e.len());
                    assert(poly_views(pts)[t as int] == q@);
                    assert(q@.len() * (et + 1) <= usize::MAX);
                    if q@.len() > 0 {
                        assert(q@[0].wf());
                    }
                }
                let pw = point[t].pow(exps[t] as u64);
                proof {
                    assert(q@.len() * et + 1 <= q@.len() * (et + 1) + 1) by (nonlinear_arith)
                        requires
                            et >= 0,
                    ;
                    assert(q@.len() * (et + 1) == q@.len() * et + q@.len()) by (nonlinear_arith);
                }
                let ghost before = product@;
                product = product * pw;
                proof {
                    if zero_powers_defined(s, pts) {
                        assert forall|z: int| #[trigger] poly_eval(product@, z) % p == (cv * monomial_upto(
                            e,
                            point_evals(pts, z),
                            (t + 1) as nat,
                        )) % p by {
                            let vals = point_evals(pts, z);
                            let m = monomial_upto(e, vals, t as nat);
                            let qv = poly_eval(q@, z);
                            assert(vals[t as int] == qv);
                            assert(exponent_at(e, t as int) == et);
                            let pq = pow(qv, et as nat);
                            let ew = poly_eval(pw@, z);
                            let eb = poly_eval(before, z);
                            // the power evaluates to the power of the value
                            if q@.len() > 0 {
                                assert(ew % p == pq % p);
                            } else {
                                assert(pw@.len() == 0);
                                assert(ew == 0);
                                assert(et != 0);
                                lemma0_pow(et as nat);
                                assert(qv == 0);
                            }
                            // the product evaluates to the product of values
                            if before.len() > 0 && pw@.len() > 0 {
                                lemma_eval_mul(before, pw@, z);
                            } else {
                                assert(product@.len() == 0);
                                assert(poly_eval(product@, z) == 0);
                                assert(eb == 0 || ew == 0);
                                assert(eb * ew == 0) by (nonlinear_arith)
                                    requires
                                        eb == 0 || ew == 0,
                                ;
                            }
                            lemma_mul_congruent(eb, ew, cv * m, pq, p);
                            assert(cv * m * pq == cv * (m * pq)) by (nonlinear_arith);
                        }
                    }
                }
                t = t + 1;
            }
            let ghost prev = acc@;
            let ghost pe = product@;
            acc = acc + product;
            proof {
                if zero_powers_defined(s, pts) {
                    assert forall|z: int| #[trigger] poly_eval(acc@, z) % p == mp_eval(
                        s.take(i + 1),
                        point_evals(pts, z),
                    ) % p by {
                        let vals = point_evals(pts, z);
                        let after = s.take(i + 1);
                        assert(after.drop_last() =~= s.take(i as int));
                        assert(after.last() == s[i as int]);
                        lemma_eval_add(prev, pe, z, p);
                        lemma_add_congruent2(
                            poly_eval(prev, z),
                            mp_eval(s.take(i as int), vals),
                            poly_eval(pe, z),
                            cv * monomial_value(e, vals),
                            p,
                        );
                    }
                }
            }
            i = i + 1;
        }
        proof {
            assert(s.take(s.len() as int) =~= s);
        }
        acc
    }
}

} // verus!
