//! Facts about monomials and the evaluation of sparse term lists.

use vstd::prelude::*;
use vstd::arithmetic::mul::*;
use vstd::arithmetic::power::*;

use crate::field::FieldElement;
use crate::polynomial::multivariate::{
    exponent_at, exponent_sums_fit, exponents_bounded, exponents_sum, from_pair, has_key, max_exponent,
    monomial_upto, monomial_value, mp_eval, trim_exponents, vec_max,
};

verus! {

/// Trimming keeps every exponent and never lengthens the vector.
pub proof fn lemma_exponent_at_trim(e: Seq<usize>, t: int)
    ensures
        exponent_at(trim_exponents(e), t) == exponent_at(e, t),
        trim_exponents(e).len() <= e.len(),
    decreases e.len(),
{
    if e.len() > 0 && e.last() == 0 {
        lemma_exponent_at_trim(e.drop_last(), t);
    }
}

/// Monomials with the same exponents below `n` agree on the first `n` factors.
pub proof fn lemma_monomial_agree(e1: Seq<usize>, e2: Seq<usize>, x: Seq<int>, n: nat)
    requires
        forall|t: int| 0 <= t < n ==> exponent_at(e1, t) == exponent_at(e2, t),
    ensures
        monomial_upto(e1, x, n) == monomial_upto(e2, x, n),
    decreases n,
{
    if n > 0 {
        lemma_monomial_agree(e1, e2, x, (n - 1) as nat);
        assert(exponent_at(e1, n - 1) == exponent_at(e2, n - 1));
    }
}

/// Factors past the end of the exponent vector are `x^0 = 1`.
pub proof fn lemma_monomial_extend(e: Seq<usize>, x: Seq<int>, n: nat)
    requires
        n >= e.len(),
    ensures
        monomial_upto(e, x, n) == monomial_value(e, x),
    decreases n,
{
    if n > e.len() {
        lemma_monomial_extend(e, x, (n - 1) as nat);
        lemma_pow0(x[n - 1]);
    }
}

/// A monomial whose exponents are the sums of two others is their product.
pub proof fn lemma_monomial_sum(s: Seq<usize>, e1: Seq<usize>, e2: Seq<usize>, x: Seq<int>, n: nat)
    requires
        forall|t: int| 0 <= t < n ==> exponent_at(s, t) == exponent_at(e1, t) + exponent_at(e2, t),
    ensures
        monomial_upto(s, x, n) == monomial_upto(e1, x, n) * monomial_upto(e2, x, n),
    decreases n,
{
    if n > 0 {
        let m = (n - 1) as nat;
        lemma_monomial_sum(s, e1, e2, x, m);
        assert(exponent_at(s, m as int) == exponent_at(e1, m as int) + exponent_at(e2, m as int));
        lemma_pow_adds(x[m as int], exponent_at(e1, m as int) as nat, exponent_at(e2, m as int) as nat);
        let a = monomial_upto(e1, x, m);
        let b = monomial_upto(e2, x, m);
        let pa = pow(x[m as int], exponent_at(e1, m as int) as nat);
        let pb = pow(x[m as int], exponent_at(e2, m as int) as nat);
        assert((a * b) * (pa * pb) == (a * pa) * (b * pb)) by (nonlinear_arith);
    }
}

/// The monomial of a product of two monomials is the product of their values.
pub proof fn lemma_monomial_of_product(e1: Seq<usize>, e2: Seq<usize>, x: Seq<int>)
    requires
        forall|t: int|
            #![trigger exponent_at(e1, t), exponent_at(e2, t)]
            exponent_at(e1, t) + exponent_at(e2, t) <= usize::MAX,
    ensures
        monomial_value(exponents_sum(e1, e2), x) == monomial_value(e1, x) * monomial_value(e2, x),
{
    let n = if e1.len() >= e2.len() {
        e1.len()
    } else {
        e2.len()
    };
    let raw = Seq::new(n, |t: int| (exponent_at(e1, t) + exponent_at(e2, t)) as usize);
    let s = exponents_sum(e1, e2);
    assert(s == trim_exponents(raw));
    assert forall|t: int| 0 <= t < n implies exponent_at(s, t) == exponent_at(e1, t) + exponent_at(
        e2,
        t,
    ) by {
        lemma_exponent_at_trim(raw, t);
        assert(exponent_at(e1, t) + exponent_at(e2, t) <= usize::MAX);
    }
    lemma_exponent_at_trim(raw, 0);
    lemma_monomial_sum(s, e1, e2, x, n);
    lemma_monomial_extend(s, x, n);
    lemma_monomial_extend(e1, x, n);
    lemma_monomial_extend(e2, x, n);
}

/// Replacing one term changes the value by the difference of the two terms.
pub proof fn lemma_mp_eval_update(
    s: Seq<(Seq<usize>, FieldElement)>,
    i: int,
    t: (Seq<usize>, FieldElement),
    x: Seq<int>,
)
    requires
        0 <= i < s.len(),
    ensures
        mp_eval(s.update(i, t), x) == mp_eval(s, x) - s[i].1.value * monomial_value(s[i].0, x)
            + t.1.value * monomial_value(t.0, x),
    decreases s.len(),
{
    let u = s.update(i, t);
    if i == s.len() - 1 {
        assert(u.drop_last() =~= s.drop_last());
    } else {
        assert(u.drop_last() =~= s.drop_last().update(i, t));
        lemma_mp_eval_update(s.drop_last(), i, t, x);
    }
}

/// Removing one term subtracts its value.
pub proof fn lemma_mp_eval_remove(s: Seq<(Seq<usize>, FieldElement)>, i: int, x: Seq<int>)
    requires
        0 <= i < s.len(),
    ensures
        mp_eval(s.remove(i), x) == mp_eval(s, x) - s[i].1.value * monomial_value(s[i].0, x),
    decreases s.len(),
{
    let r = s.remove(i);
    if i == s.len() - 1 {
        assert(r =~= s.drop_last());
    } else {
        assert(r.drop_last() =~= s.drop_last().remove(i));
        assert(r.last() == s.last());
        lemma_mp_eval_remove(s.drop_last(), i, x);
    }
}

/// Appending a term adds its value.
pub proof fn lemma_mp_eval_push(s: Seq<(Seq<usize>, FieldElement)>, t: (Seq<usize>, FieldElement), x: Seq<int>)
    ensures
        mp_eval(s.push(t), x) == mp_eval(s, x) + t.1.value * monomial_value(t.0, x),
{
    assert(s.push(t).drop_last() =~= s);
}

/// Adding the same amount keeps two congruent values congruent.
pub proof fn lemma_mod_add_congruent(u: int, v: int, w: int, p: int)
    requires
        p > 0,
        u % p == v % p,
    ensures
        (u + w) % p == (v + w) % p,
{
    vstd::arithmetic::div_mod::lemma_add_mod_noop(u, w, p);
    vstd::arithmetic::div_mod::lemma_add_mod_noop(v, w, p);
}

/// Negating every coefficient negates the value.
pub proof fn lemma_mp_eval_negated(
    t: Seq<(Seq<usize>, FieldElement)>,
    a: Seq<(Seq<usize>, FieldElement)>,
    x: Seq<int>,
    p: int,
)
    requires
        p > 0,
        t.len() == a.len(),
        forall|i: int|
            0 <= i < a.len() ==> (#[trigger] t[i]).0 == a[i].0 && t[i].1.value == (-a[i].1.value) % p,
    ensures
        mp_eval(t, x) % p == (-mp_eval(a, x)) % p,
    decreases a.len(),
{
    if a.len() > 0 {
        let n = a.len() - 1;
        assert(t[n].0 == a[n].0);
        lemma_mp_eval_negated(t.drop_last(), a.drop_last(), x, p);
        let m = monomial_value(a.last().0, x);
        let et = mp_eval(t.drop_last(), x);
        let ea = mp_eval(a.drop_last(), x);
        lemma_add_scaled_mod(et, -a.last().1.value, m, p);
        lemma_mod_add_congruent(et, -ea, (-a.last().1.value) * m, p);
        assert(-ea + (-a.last().1.value) * m == -(ea + a.last().1.value * m)) by (nonlinear_arith);
    }
}

/// `a + (b mod p) m` is congruent to `a + b m` modulo `p`.
pub proof fn lemma_add_scaled_mod(a: int, b: int, m: int, p: int)
    requires
        p > 0,
    ensures
        (a + (b % p) * m) % p == (a + b * m) % p,
{
    vstd::arithmetic::div_mod::lemma_fundamental_div_mod(b, p);
    let q = b / p;
    let r = b % p;
    assert(a + b * m == p * (q * m) + (a + r * m)) by (nonlinear_arith)
        requires
            b == p * q + r,
    ;
    vstd::arithmetic::div_mod::lemma_mod_multiples_vanish(q * m, a + r * m, p);
}

/// Every exponent of a vector is at most its largest entry.
pub proof fn lemma_vec_max(e: Seq<usize>, t: int)
    ensures
        0 <= exponent_at(e, t) <= vec_max(e),
        vec_max(e) >= 0,
    decreases e.len(),
{
    if e.len() > 0 {
        lemma_vec_max(e.drop_last(), t);
    }
}

/// `max_exponent` bounds every exponent of every term.
pub proof fn lemma_max_exponent(s: Seq<(Seq<usize>, FieldElement)>)
    ensures
        exponents_bounded(s, max_exponent(s)),
        max_exponent(s) >= 0,
    decreases s.len(),
{
    if s.len() > 0 {
        lemma_max_exponent(s.drop_last());
        assert forall|i: int, t: int| 0 <= i < s.len() implies exponent_at(s[i].0, t) <= max_exponent(s) by {
            lemma_vec_max(s[i].0, t);
            if i < s.len() - 1 {
                assert(s[i] == s.drop_last()[i]);
            }
        }
        lemma_vec_max(s.last().0, 0);
    }
}

/// Terms bounded by `a_bound` and `b_bound` multiply without overflow when
/// the bounds add up to at most `usize::MAX`.
pub proof fn lemma_bounded_fit(
    a: Seq<(Seq<usize>, FieldElement)>,
    b: Seq<(Seq<usize>, FieldElement)>,
    a_bound: int,
    b_bound: int,
)
    requires
        exponents_bounded(a, a_bound),
        exponents_bounded(b, b_bound),
        a_bound + b_bound <= usize::MAX,
    ensures
        exponent_sums_fit(a, b),
{
    assert forall|i: int, j: int, t: int|
        #![trigger exponent_at(a[i].0, t), exponent_at(b[j].0, t)]
        0 <= i < a.len() && 0 <= j < b.len() implies exponent_at(a[i].0, t) + exponent_at(b[j].0, t)
        <= usize::MAX by {
        assert(exponent_at(a[i].0, t) <= a_bound);
        assert(exponent_at(b[j].0, t) <= b_bound);
    }
}

/// Exponent vectors of products of bounded terms are bounded by the sum.
pub proof fn lemma_product_bounded(
    a: Seq<(Seq<usize>, FieldElement)>,
    b: Seq<(Seq<usize>, FieldElement)>,
    r: Seq<(Seq<usize>, FieldElement)>,
    a_bound: int,
    b_bound: int,
)
    requires
        exponents_bounded(a, a_bound),
        exponents_bounded(b, b_bound),
        a_bound + b_bound <= usize::MAX,
        forall|t: int| 0 <= t < r.len() ==> from_pair(a, b, (#[trigger] r[t]).0),
    ensures
        exponents_bounded(r, a_bound + b_bound),
{
    assert forall|u: int, t: int| 0 <= u < r.len() implies exponent_at(r[u].0, t) <= a_bound + b_bound by {
        assert(from_pair(a, b, r[u].0));
        let (i, j) = choose|i: int, j: int|
            0 <= i < a.len() && 0 <= j < b.len() && exponents_sum(a[i].0, b[j].0) == r[u].0;
        let e1 = a[i].0;
        let e2 = b[j].0;
        let n = if e1.len() >= e2.len() {
            e1.len()
        } else {
            e2.len()
        };
        let raw = Seq::new(n, |t: int| (exponent_at(e1, t) + exponent_at(e2, t)) as usize);
        lemma_exponent_at_trim(raw, t);
        assert(exponent_at(e1, t) <= a_bound);
        assert(exponent_at(e2, t) <= b_bound);
        lemma_vec_max(e1, t);
        lemma_vec_max(e2, t);
    }
}

/// Sums of congruent values are congruent.
pub proof fn lemma_add_congruent2(u1: int, v1: int, u2: int, v2: int, p: int)
    requires
        p > 0,
        u1 % p == v1 % p,
        u2 % p == v2 % p,
    ensures
        (u1 + u2) % p == (v1 + v2) % p,
{
    vstd::arithmetic::div_mod::lemma_add_mod_noop(u1, u2, p);
    vstd::arithmetic::div_mod::lemma_add_mod_noop(v1, v2, p);
}

/// Products of congruent values are congruent.
pub proof fn lemma_mul_congruent(u: int, v: int, pu: int, pv: int, p: int)
    requires
        p > 0,
        u % p == pu % p,
        v % p == pv % p,
    ensures
        (u * v) % p == (pu * pv) % p,
{
    vstd::arithmetic::div_mod::lemma_mul_mod_noop_general(u, v, p);
    vstd::arithmetic::div_mod::lemma_mul_mod_noop_general(pu, pv, p);
}

/// Powers of congruent values are congruent.
pub proof fn lemma_pow_congruent(u: int, v: int, e: nat, p: int)
    requires
        p > 0,
        u % p == v % p,
    ensures
        pow(u, e) % p == pow(v, e) % p,
{
    lemma_pow_mod_noop(u, e, p);
    lemma_pow_mod_noop(v, e, p);
}


/// Terms whose keys all come from `a` or `b` are bounded by a bound of
/// both.
pub proof fn lemma_keys_bounded(
    a: Seq<(Seq<usize>, FieldElement)>,
    b: Seq<(Seq<usize>, FieldElement)>,
    r: Seq<(Seq<usize>, FieldElement)>,
    bound: int,
)
    requires
        exponents_bounded(a, bound),
        exponents_bounded(b, bound),
        forall|t: int| 0 <= t < r.len() ==> has_key(a, (#[trigger] r[t]).0) || has_key(b, r[t].0),
    ensures
        exponents_bounded(r, bound),
{
    assert forall|u: int, t: int| 0 <= u < r.len() implies exponent_at(r[u].0, t) <= bound by {
        if has_key(a, r[u].0) {
            let j = choose|j: int| 0 <= j < a.len() && a[j].0 == r[u].0;
            assert(exponent_at(a[j].0, t) <= bound);
        } else {
            let j = choose|j: int| 0 <= j < b.len() && b[j].0 == r[u].0;
            assert(exponent_at(b[j].0, t) <= bound);
        }
    }
}

/// A bound on the exponents of an exponent vector bounds its largest
/// entry.
proof fn lemma_vec_max_bounded(e: Seq<usize>, bound: int)
    requires
        bound >= 0,
        forall|t: int| exponent_at(e, t) <= bound,
    ensures
        vec_max(e) <= bound,
    decreases e.len(),
{
    if e.len() > 0 {
        assert forall|t: int| exponent_at(e.drop_last(), t) <= bound by {
            assert(exponent_at(e, t) <= bound);
        }
        lemma_vec_max_bounded(e.drop_last(), bound);
        assert(exponent_at(e, e.len() - 1) <= bound);
    }
}

/// A bound on all exponents bounds the largest one.
pub proof fn lemma_max_exponent_bounded(s: Seq<(Seq<usize>, FieldElement)>, bound: int)
    requires
        bound >= 0,
        exponents_bounded(s, bound),
    ensures
        max_exponent(s) <= bound,
    decreases s.len(),
{
    if s.len() > 0 {
        assert(exponents_bounded(s.drop_last(), bound)) by {
            assert forall|i: int, t: int| 0 <= i < s.drop_last().len() implies exponent_at(s.drop_last()[i].0, t) <= bound by {
                assert(s.drop_last()[i] == s[i]);
                assert(exponent_at(s[i].0, t) <= bound);
            }
        }
        lemma_max_exponent_bounded(s.drop_last(), bound);
        assert forall|t: int| exponent_at(s.last().0, t) <= bound by {
            assert(exponent_at(s[s.len() - 1].0, t) <= bound);
        }
        lemma_vec_max_bounded(s.last().0, bound);
    }
}

} // verus!
