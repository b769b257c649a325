//! Root counting over a prime field.  A polynomial with at most `n`
//! coefficients that vanishes at `n` points with distinct residues has
//! every coefficient divisible by the prime; so two polynomials that agree
//! on as many points as they have coefficients are equal, and Lagrange
//! interpolation gives back any polynomial of low enough degree.

use vstd::prelude::*;
use vstd::arithmetic::div_mod::*;
use vstd::arithmetic::mul::*;
use vstd::arithmetic::power::*;

use crate::field::prime::{is_prime, lemma_prime_unit};
use crate::field::{Field, FieldElement};
use crate::field::arith::spec_inverse;
use crate::field::laws::lemma_inverse_cancels;
use crate::math::{is_unit, spec_gcd};
use crate::polynomial::eval_laws::lemma_eval_add;
use crate::polynomial::{
    all_in_field, canonical, coeff, conv_upto, difference_inverse, differences_invertible, distinct_points,
    eval_upto, lagrange_basis, lagrange_sum, lemma_basis_step, lemma_diff_nonzero, lemma_eval_constant,
    lemma_eval_linear, lemma_eval_mul_any, lemma_eval_upto_beyond, lemma_strip_zeros, linear_factor,
    interpolant_is_linear, on_line, points_in_field, poly_add, poly_eval, poly_mul, strip_zeros, sum_coeffs,
};

verus! {

/// `s_0 + x (s_1 + x (s_2 + …))` over the integers.
pub open spec fn horner(s: Seq<int>, x: int) -> int
    decreases s.len(),
{
    if s.len() == 0 {
        0
    } else {
        s[0] + x * horner(s.drop_first(), x)
    }
}

/// The quotient of `s` by `x − r`, by synthetic division.
pub open spec fn synthetic_quotient(s: Seq<int>, r: int) -> Seq<int>
    decreases s.len(),
{
    if s.len() <= 1 {
        Seq::empty()
    } else {
        seq![horner(s.drop_first(), r)] + synthetic_quotient(s.drop_first(), r)
    }
}

/// The coefficient differences of `a` and `b`, for the first `n` powers.
pub open spec fn coefficient_differences(a: Seq<FieldElement>, b: Seq<FieldElement>, n: nat) -> Seq<int> {
    Seq::new(n, |k: int| coeff(a, k) - coeff(b, k))
}

/// `s(x) − s(r) = (x − r) · q(x)` for the synthetic quotient `q`, which
/// has one coefficient fewer.
proof fn lemma_synthetic(s: Seq<int>, r: int, x: int)
    ensures
        s.len() > 0 ==> synthetic_quotient(s, r).len() == s.len() - 1,
        s.len() == 0 ==> synthetic_quotient(s, r).len() == 0,
        horner(s, x) - horner(s, r) == (x - r) * horner(synthetic_quotient(s, r), x),
    decreases s.len(),
{
    if s.len() <= 1 {
        lemma_mul_basics(x);
        lemma_mul_basics(r);
        lemma_mul_basics(x - r);
        assert(synthetic_quotient(s, r).len() == 0);
        assert(horner(synthetic_quotient(s, r), x) == 0);
        if s.len() == 1 {
            assert(s.drop_first().len() == 0);
            assert(horner(s.drop_first(), x) == 0);
            assert(horner(s.drop_first(), r) == 0);
            assert(horner(s, x) == s[0] + x * 0);
            assert(horner(s, r) == s[0] + r * 0);
        }
    } else {
        let t = s.drop_first();
        lemma_synthetic(t, r, x);
        let g = synthetic_quotient(s, r);
        let gt = synthetic_quotient(t, r);
        assert(g.drop_first() =~= gt);
        let sx = horner(s, x);
        let sr = horner(s, r);
        let tx = horner(t, x);
        let tr = horner(t, r);
        let hg = horner(gt, x);
        let gx = horner(g, x);
        let s0 = s[0];
        assert(sx - sr == (x - r) * gx) by (nonlinear_arith)
            requires
                sx == s0 + x * tx,
                sr == s0 + r * tr,
                tx - tr == (x - r) * hg,
                gx == tr + x * hg,
        ;
    }
}

/// `(a − b) mod p` vanishes when both do.
pub proof fn lemma_sub_vanishes(a: int, b: int, p: int)
    requires
        p > 0,
        a % p == b % p,
    ensures
        (a - b) % p == 0,
{
    lemma_sub_mod_noop(a, b, p);
    lemma_small_mod(0, p as nat);
}

/// A unit times `b` vanishes modulo `p` only when `b` does.
pub proof fn lemma_unit_cancel(a: int, b: int, p: int)
    requires
        p > 1,
        is_unit(a, p),
        (a * b) % p == 0,
    ensures
        b % p == 0,
{
    let i = choose|i: int| #[trigger] ((a * i) % p) == 1;
    assert(b * (a * i) == (a * b) * i) by (nonlinear_arith);
    lemma_mul_mod_noop_right(b, a * i, p);
    lemma_mul_mod_noop_left(a * b, i, p);
    lemma_mul_basics(b);
    lemma_mul_basics(i);
    lemma_small_mod(0, p as nat);
}

/// A polynomial vanishing at `r` whose synthetic quotient by `x − r`
/// vanishes coefficient-wise vanishes coefficient-wise.
proof fn lemma_zero_from_quotient(s: Seq<int>, r: int, p: int)
    requires
        p > 0,
        horner(s, r) % p == 0,
        forall|k: int| 0 <= k < synthetic_quotient(s, r).len() ==> #[trigger] synthetic_quotient(s, r)[k] % p == 0,
    ensures
        forall|k: int| 0 <= k < s.len() ==> #[trigger] s[k] % p == 0,
    decreases s.len(),
{
    if s.len() == 1 {
        lemma_mul_basics(r);
        assert(horner(s.drop_first(), r) == 0);
    } else if s.len() > 1 {
        let t = s.drop_first();
        let g = synthetic_quotient(s, r);
        let gt = synthetic_quotient(t, r);
        assert(g.drop_first() =~= gt);
        assert(g[0] == horner(t, r));
        lemma_synthetic(s, r, r);
        assert forall|k: int| 0 <= k < gt.len() implies #[trigger] gt[k] % p == 0 by {
            assert(gt[k] == g[k + 1]);
        }
        lemma_zero_from_quotient(t, r, p);
        let tr = horner(t, r);
        lemma_mul_mod_noop_right(r, tr, p);
        lemma_mul_basics(r);
        lemma_small_mod(0, p as nat);
        assert((r * tr) % p == 0);
        lemma_sub_vanishes(horner(s, r), r * tr, p);
        assert(s[0] == horner(s, r) - r * tr);
        assert forall|k: int| 0 <= k < s.len() implies #[trigger] s[k] % p == 0 by {
            if k > 0 {
                assert(s[k] == t[k - 1]);
            }
        }
    }
}

/// Root counting: modulo a prime, a polynomial with at most as many
/// coefficients as points with pairwise distinct residues at which it
/// vanishes has every coefficient divisible by the prime.
pub proof fn lemma_vanishing(s: Seq<int>, xs: Seq<int>, p: int)
    requires
        is_prime(p),
        s.len() <= xs.len(),
        forall|i: int, j: int|
            #![trigger xs[i], xs[j]]
            0 <= i < xs.len() && 0 <= j < xs.len() && i != j ==> (xs[i] - xs[j]) % p != 0,
        forall|i: int| 0 <= i < xs.len() ==> #[trigger] horner(s, xs[i]) % p == 0,
    ensures
        forall|k: int| 0 <= k < s.len() ==> #[trigger] s[k] % p == 0,
    decreases xs.len(),
{
    if s.len() > 0 {
        let r = xs[0];
        let g = synthetic_quotient(s, r);
        let rest = xs.drop_first();
        lemma_synthetic(s, r, r);
        assert forall|i: int| 0 <= i < rest.len() implies #[trigger] horner(g, rest[i]) % p == 0 by {
            let x = rest[i];
            assert(x == xs[i + 1]);
            assert(horner(s, xs[i + 1]) % p == 0);
            lemma_synthetic(s, r, x);
            lemma_sub_vanishes(horner(s, x), horner(s, r), p);
            assert((xs[i + 1] - xs[0]) % p != 0);
            lemma_prime_unit(x - r, p);
            lemma_unit_cancel(x - r, horner(g, x), p);
        }
        assert forall|i: int, j: int|
            #![trigger rest[i], rest[j]]
            0 <= i < rest.len() && 0 <= j < rest.len() && i != j implies (rest[i] - rest[j]) % p != 0 by {
            assert(rest[i] == xs[i + 1] && rest[j] == xs[j + 1]);
        }
        lemma_vanishing(g, rest, p);
        lemma_zero_from_quotient(s, r, p);
    }
}

/// Appending a coefficient adds its term.
proof fn lemma_horner_push(u: Seq<int>, c: int, x: int)
    ensures
        horner(u.push(c), x) == horner(u, x) + c * pow(x, u.len()),
    decreases u.len(),
{
    reveal(pow);
    if u.len() == 0 {
        assert(u.push(c).drop_first() =~= Seq::<int>::empty());
        assert(horner(u.push(c).drop_first(), x) == 0);
        lemma_mul_basics(x);
        lemma_mul_basics(c);
        assert(pow(x, 0) == 1);
        assert(horner(u.push(c), x) == c + x * 0);
    } else {
        assert(u.push(c).drop_first() =~= u.drop_first().push(c));
        lemma_horner_push(u.drop_first(), c, x);
        let h = horner(u.drop_first(), x);
        let pw = pow(x, (u.len() - 1) as nat);
        assert(pow(x, u.len()) == x * pw);
        assert(u.push(c)[0] == u[0]);
        assert(horner(u.push(c), x) == u[0] + x * horner(u.push(c).drop_first(), x));
        assert(x * (h + c * pw) == x * h + c * (x * pw)) by (nonlinear_arith);
    }
}

/// The difference of the first `m` terms of two evaluations is the Horner
/// value of the first `m` coefficient differences.
pub proof fn lemma_eval_difference(a: Seq<FieldElement>, b: Seq<FieldElement>, x: int, n: nat, m: nat)
    requires
        m <= n,
    ensures
        eval_upto(a, x, m) - eval_upto(b, x, m) == horner(coefficient_differences(a, b, n).take(m as int), x),
    decreases m,
{
    let d = coefficient_differences(a, b, n);
    if m == 0 {
        assert(d.take(0) =~= Seq::<int>::empty());
    } else {
        lemma_eval_difference(a, b, x, n, (m - 1) as nat);
        assert(d.take(m as int) =~= d.take(m - 1).push(d[m - 1]));
        lemma_horner_push(d.take(m - 1), d[m - 1], x);
        lemma_mul_is_distributive_sub_other_way(pow(x, (m - 1) as nat), coeff(a, m - 1), coeff(b, m - 1));
    }
}

/// An integer strictly between `−p` and `p` that `p` divides is zero.
proof fn lemma_small_multiple(e: int, p: int)
    requires
        p > 0,
        -p < e < p,
        e % p == 0,
    ensures
        e == 0,
{
    lemma_fundamental_div_mod(e, p);
    let q = e / p;
    assert(q == 0) by (nonlinear_arith)
        requires
            e == p * q,
            -p < e < p,
            p > 0,
    ;
}

/// Interpolation is unique: modulo a prime, two polynomials with residue
/// coefficients and at most `n` coefficients each that agree at `n`
/// points of pairwise distinct residues have the same coefficients.
pub proof fn lemma_interpolation_unique(a: Seq<FieldElement>, b: Seq<FieldElement>, xs: Seq<int>, p: int)
    requires
        is_prime(p),
        a.len() <= xs.len(),
        b.len() <= xs.len(),
        forall|k: int| 0 <= k < a.len() ==> (#[trigger] a[k]).value < p,
        forall|k: int| 0 <= k < b.len() ==> (#[trigger] b[k]).value < p,
        forall|i: int, j: int|
            #![trigger xs[i], xs[j]]
            0 <= i < xs.len() && 0 <= j < xs.len() && i != j ==> (xs[i] - xs[j]) % p != 0,
        forall|i: int| 0 <= i < xs.len() ==> #[trigger] poly_eval(a, xs[i]) % p == poly_eval(b, xs[i]) % p,
    ensures
        forall|k: int| #![trigger coeff(a, k)] coeff(a, k) == coeff(b, k),
{
    let n = xs.len();
    let d = coefficient_differences(a, b, n);
    assert forall|i: int| 0 <= i < xs.len() implies #[trigger] horner(d, xs[i]) % p == 0 by {
        let x = xs[i];
        lemma_eval_difference(a, b, x, n, n);
        assert(d.take(n as int) =~= d);
        lemma_eval_upto_beyond(a, x, n);
        lemma_eval_upto_beyond(b, x, n);
        lemma_sub_vanishes(poly_eval(a, x), poly_eval(b, x), p);
    }
    lemma_vanishing(d, xs, p);
    assert forall|k: int| #![trigger coeff(a, k)] coeff(a, k) == coeff(b, k) by {
        if 0 <= k < n {
            assert(d[k] % p == 0);
            lemma_small_multiple(d[k], p);
        }
    }
}

/// A product lies in the field of its first factor, has no trailing zero,
/// and has at most one coefficient fewer than its factors together.
proof fn lemma_mul_shape(a: Seq<FieldElement>, b: Seq<FieldElement>, f: Field)
    requires
        f.p > 0,
        all_in_field(a, f),
    ensures
        all_in_field(poly_mul(a, b), f),
        canonical(poly_mul(a, b)),
        a.len() > 0 && b.len() > 0 ==> poly_mul(a, b).len() <= a.len() + b.len() - 1,
        a.len() == 0 || b.len() == 0 ==> poly_mul(a, b).len() == 0,
{
    if a.len() > 0 && b.len() > 0 {
        let s = Seq::new(
            (a.len() + b.len() - 1) as nat,
            |k: int| a[0].field.element_of(conv_upto(a, b, a.len(), k)),
        );
        lemma_strip_zeros(s);
        assert(poly_mul(a, b) == strip_zeros(s));
        assert forall|i: int| 0 <= i < poly_mul(a, b).len() implies (#[trigger] poly_mul(a, b)[i]).field == f
            && poly_mul(a, b)[i].wf() by {
            assert(poly_mul(a, b)[i] == s[i]);
            lemma_mod_bound(conv_upto(a, b, a.len(), i), f.p as int);
        }
    }
}

/// A sum lies in the field of its terms, has no trailing zero when they
/// have none, and is no longer than the longer term.
proof fn lemma_add_shape(a: Seq<FieldElement>, b: Seq<FieldElement>, f: Field)
    requires
        f.p > 0,
        all_in_field(a, f),
        all_in_field(b, f),
        canonical(a),
        canonical(b),
    ensures
        all_in_field(poly_add(a, b), f),
        canonical(poly_add(a, b)),
        poly_add(a, b).len() <= a.len() || poly_add(a, b).len() <= b.len(),
{
    if a.len() > 0 && b.len() > 0 {
        let s = sum_coeffs(a, b);
        lemma_strip_zeros(s);
        assert forall|i: int| 0 <= i < poly_add(a, b).len() implies (#[trigger] poly_add(a, b)[i]).field == f
            && poly_add(a, b)[i].wf() by {
            assert(poly_add(a, b)[i] == s[i]);
            lemma_mod_bound(coeff(a, i) + coeff(b, i), f.p as int);
        }
    }
}

/// The Lagrange basis polynomial of point `i`, scaled by its value, after
/// `j` factors: in the field, with no trailing zero, one coefficient per
/// factor applied plus one; when the differences of the points are
/// invertible it takes the value `v_i` at `d_i` and vanishes at each of
/// the first `j` other points.
proof fn lemma_lagrange_basis(ds: Seq<FieldElement>, vs: Seq<FieldElement>, i: int, j: nat, f: Field)
    requires
        f.p > 1,
        0 <= i < ds.len(),
        j <= ds.len(),
        vs.len() == ds.len(),
        points_in_field(ds, f),
        points_in_field(vs, f),
        distinct_points(ds),
    ensures
        all_in_field(lagrange_basis(ds, vs, i, j), f),
        canonical(lagrange_basis(ds, vs, i, j)),
        lagrange_basis(ds, vs, i, j).len() <= 1 + j - (if i < j { 1int } else { 0 }),
        differences_invertible(ds, f.p as nat) ==> poly_eval(lagrange_basis(ds, vs, i, j), ds[i].value as int)
            % (f.p as int) == vs[i].value,
        differences_invertible(ds, f.p as nat) ==> forall|k: int|
            0 <= k < ds.len() && k != i && k < j ==> #[trigger] poly_eval(
                lagrange_basis(ds, vs, i, j),
                ds[k].value as int,
            ) % (f.p as int) == 0,
    decreases j,
{
    let p = f.p as int;
    let h = differences_invertible(ds, f.p as nat);
    if j == 0 {
        let c = seq![vs[i]];
        lemma_strip_zeros(c);
        assert(vs[i].field == f && vs[i].wf());
        lemma_eval_constant(vs[i], ds[i].value as int);
        lemma_small_mod(vs[i].value as nat, f.p as nat);
    } else {
        let k = j - 1;
        lemma_lagrange_basis(ds, vs, i, (j - 1) as nat, f);
        let b = lagrange_basis(ds, vs, i, (j - 1) as nat);
        if k != i {
            let dk = ds[k];
            let di = ds[i];
            assert(dk.field == f && dk.wf() && di.field == f && di.wf());
            let lf = linear_factor(dk);
            let dinv = difference_inverse(di, dk);
            let c = strip_zeros(seq![dinv]);
            let m1 = poly_mul(b, lf);
            lemma_mul_shape(b, lf, f);
            lemma_mul_shape(m1, c, f);
            lemma_strip_zeros(seq![dinv]);
            let r = poly_mul(m1, c);
            assert(r == lagrange_basis(ds, vs, i, j));
            let cv = dinv.value as int;
            assert forall|kk: int| 0 <= kk < ds.len() implies #[trigger] poly_eval(r, ds[kk].value as int) % p
                == (poly_eval(b, ds[kk].value as int) * (ds[kk].value - dk.value) * cv) % p by {
                let xk = ds[kk].value as int;
                lemma_eval_mul_any(b, lf, xk, p);
                lemma_eval_mul_any(m1, c, xk, p);
                lemma_eval_constant(dinv, xk);
                lemma_eval_linear(dk, xk);
                lemma_mul_mod_noop_left(poly_eval(m1, xk), cv, p);
                lemma_basis_step(poly_eval(b, xk), poly_eval(lf, xk), cv, xk - dk.value, p, poly_eval(r, xk));
            }
            if h {
                lemma_diff_nonzero(di.value as int, dk.value as int, p);
                let diff = f.element_of(di.value - dk.value);
                let dv = (di.value - dk.value) % p;
                lemma_mod_bound(di.value - dk.value, p);
                assert(diff.value == dv);
                assert(spec_gcd(dv as nat, f.p as nat) == 1);
                lemma_inverse_cancels(diff);
                lemma_small_mod(dv as nat, f.p as nat);
                lemma_small_mod(1, f.p as nat);
                let inv = spec_inverse(dv as nat, f.p as nat) as int;
                lemma_mod_bound(crate::math::spec_xgcd(dv as nat, f.p as nat).0, p);
                lemma_small_mod(inv as nat, f.p as nat);
                assert(cv == inv);
                assert((dv * cv) % p == 1);
                let e0 = poly_eval(b, di.value as int);
                lemma_mul_is_associative(e0, di.value - dk.value, cv);
                lemma_mul_mod_noop_right(e0, (di.value - dk.value) * cv, p);
                lemma_mul_mod_noop_left(di.value - dk.value, cv, p);
                lemma_mul_mod_noop_right(e0, 1, p);
                lemma_mul_mod_noop_left(e0, 1, p);
                lemma_mul_basics(e0);
                assert(poly_eval(r, di.value as int) % p == e0 % p);
                assert forall|kk: int| 0 <= kk < ds.len() && kk != i && kk < j implies #[trigger] poly_eval(
                    r,
                    ds[kk].value as int,
                ) % p == 0 by {
                    let ek = poly_eval(b, ds[kk].value as int);
                    assert(poly_eval(r, ds[kk].value as int) % p == (ek * (ds[kk].value - dk.value) * cv) % p);
                    lemma_small_mod(0, f.p as nat);
                    lemma_mul_is_associative(ek, ds[kk].value - dk.value, cv);
                    lemma_mul_mod_noop_left(ek, (ds[kk].value - dk.value) * cv, p);
                    if kk == k {
                        assert(ds[kk].value - dk.value == 0);
                        lemma_mul_basics(cv);
                        lemma_mul_basics(ek);
                        assert(ek * (ds[kk].value - dk.value) == 0);
                    } else {
                        assert(ek % p == 0);
                        lemma_mul_basics((ds[kk].value - dk.value) * cv);
                    }
                }
            }
        }
    }
}

/// The Lagrange sum of the first `i` terms: in the field, with no
/// trailing zero, at most as many coefficients as points, and, when the
/// differences of the points are invertible, taking the value `v_k` at
/// `d_k` for `k < i` and vanishing at the other points.
pub proof fn lemma_lagrange_sum(ds: Seq<FieldElement>, vs: Seq<FieldElement>, i: nat, f: Field)
    requires
        f.p > 1,
        ds.len() == vs.len(),
        i <= ds.len(),
        points_in_field(ds, f),
        points_in_field(vs, f),
        distinct_points(ds),
    ensures
        all_in_field(lagrange_sum(ds, vs, i), f),
        canonical(lagrange_sum(ds, vs, i)),
        lagrange_sum(ds, vs, i).len() <= ds.len(),
        differences_invertible(ds, f.p as nat) ==> forall|k: int|
            0 <= k < ds.len() ==> #[trigger] poly_eval(lagrange_sum(ds, vs, i), ds[k].value as int) % (f.p as int)
                == (if k < i { vs[k].value as int } else { 0 }),
    decreases i,
{
    let p = f.p as int;
    let n = ds.len();
    if i == 0 {
        assert forall|k: int| 0 <= k < n implies #[trigger] poly_eval(lagrange_sum(ds, vs, i), ds[k].value as int)
            % p == 0 by {
            lemma_eval_upto_beyond(lagrange_sum(ds, vs, i), ds[k].value as int, 0);
            lemma_small_mod(0, p as nat);
        }
    } else {
        lemma_lagrange_sum(ds, vs, (i - 1) as nat, f);
        lemma_lagrange_basis(ds, vs, i - 1, n, f);
        let a0 = lagrange_sum(ds, vs, (i - 1) as nat);
        let bs = lagrange_basis(ds, vs, i - 1, n);
        lemma_add_shape(a0, bs, f);
        if differences_invertible(ds, f.p as nat) {
            assert forall|k: int| 0 <= k < n implies #[trigger] poly_eval(lagrange_sum(ds, vs, i), ds[k].value as int)
                % p == (if k < i { vs[k].value as int } else { 0 }) by {
                let xk = ds[k].value as int;
                lemma_eval_add(a0, bs, xk, p);
                lemma_add_mod_noop(poly_eval(a0, xk), poly_eval(bs, xk), p);
                lemma_small_mod(vs[k].value as nat, p as nat);
                lemma_small_mod(0, p as nat);
                assert(vs[k].field == f && vs[k].wf());
            }
        }
    }
}

/// Modulo a prime, points with distinct residues have invertible
/// differences.
pub proof fn lemma_prime_differences_invertible(ds: Seq<FieldElement>, p: int)
    requires
        is_prime(p),
        distinct_points(ds),
        forall|i: int| 0 <= i < ds.len() ==> (#[trigger] ds[i]).value < p,
    ensures
        differences_invertible(ds, p as nat),
{
    assert forall|i: int, j: int| 0 <= i < ds.len() && 0 <= j < ds.len() && i != j implies spec_gcd(
        ((ds[i].value - ds[j].value) % p) as nat,
        p as nat,
    ) == 1 by {
        lemma_diff_nonzero(ds[i].value as int, ds[j].value as int, p);
        lemma_prime_unit(ds[i].value - ds[j].value, p);
    }
}

/// Completeness of the colinearity test: modulo a prime, points with
/// pairwise distinct abscissas that lie on a line `y = a + b·x` have an
/// interpolating polynomial with at most two coefficients.
pub proof fn lemma_line_is_linear(points: Seq<(FieldElement, FieldElement)>, a: int, b: int)
    requires
        points.len() > 0,
        is_prime(points[0].0.field.p as int),
        forall|i: int|
            0 <= i < points.len() ==> (#[trigger] points[i]).0.field == points[0].0.field && points[i].1.field
                == points[0].0.field && points[i].0.wf() && points[i].1.wf(),
        forall|i: int, j: int|
            0 <= i < points.len() && 0 <= j < points.len() && i != j ==> points[i].0.value != points[j].0.value,
        on_line(points, a, b, points[0].0.field.p as int),
    ensures
        interpolant_is_linear(points),
{
    let f = points[0].0.field;
    let p = f.p as int;
    let n = points.len();
    let ds = points.map_values(|q: (FieldElement, FieldElement)| q.0);
    let vs = points.map_values(|q: (FieldElement, FieldElement)| q.1);
    assert(points_in_field(ds, f));
    assert(points_in_field(vs, f));
    assert(distinct_points(ds));
    lemma_lagrange_sum(ds, vs, n, f);
    let q = lagrange_sum(ds, vs, n);
    if n >= 3 {
        lemma_prime_differences_invertible(ds, p);
        let line = seq![f.element_of(a), f.element_of(b)];
        let xs = Seq::new(n, |k: int| ds[k].value as int);
        assert forall|k: int| 0 <= k < xs.len() implies #[trigger] poly_eval(q, xs[k]) % p == poly_eval(line, xs[k])
            % p by {
            let x = xs[k];
            assert(points[k].0.value == x);
            reveal_with_fuel(eval_upto, 3);
            reveal_with_fuel(pow, 2);
            lemma_eval_upto_beyond(line, x, 2);
            lemma_mul_basics(a % p);
            lemma_mul_basics(x);
            assert(poly_eval(line, x) == a % p + (b % p) * x);
            lemma_mul_mod_noop_left(b, x, p);
            lemma_add_mod_noop(a, b * x, p);
            lemma_add_mod_noop(a % p, (b % p) * x, p);
            lemma_mod_twice(a, p);
            lemma_mod_twice((b % p) * x, p);
            assert(poly_eval(line, x) % p == (a + b * x) % p);
        }
        assert forall|i: int, j: int|
            #![trigger xs[i], xs[j]]
            0 <= i < xs.len() && 0 <= j < xs.len() && i != j implies (xs[i] - xs[j]) % p != 0 by {
            lemma_diff_nonzero(xs[i], xs[j], p);
        }
        assert forall|k: int| 0 <= k < line.len() implies (#[trigger] line[k]).value < p by {
            lemma_mod_bound(a, p);
            lemma_mod_bound(b, p);
        }
        lemma_interpolation_unique(q, line, xs, p);
        if q.len() > 2 {
            assert(coeff(q, q.len() - 1) == coeff(line, q.len() - 1));
        }
    }
}

/// A line `[a, b]` in the field evaluates to `a + b·x` modulo `p`.
pub proof fn lemma_eval_line(a: int, b: int, x: int, f: Field)
    requires
        f.p > 0,
    ensures
        poly_eval(seq![f.element_of(a), f.element_of(b)], x) % (f.p as int) == (a + b * x) % (f.p as int),
{
    let p = f.p as int;
    let line = seq![f.element_of(a), f.element_of(b)];
    reveal_with_fuel(eval_upto, 3);
    reveal_with_fuel(pow, 2);
    lemma_eval_upto_beyond(line, x, 2);
    lemma_mod_bound(a, p);
    lemma_mod_bound(b, p);
    lemma_mul_basics(a % p);
    lemma_mul_basics(x);
    assert(poly_eval(line, x) == a % p + (b % p) * x);
    lemma_mul_mod_noop_left(b, x, p);
    lemma_add_mod_noop(a, b * x, p);
    lemma_add_mod_noop(a % p, (b % p) * x, p);
    lemma_mod_twice(a, p);
    lemma_mod_twice((b % p) * x, p);
}

/// The value of a polynomial is the Horner value of its first `n ≥ len`
/// coefficients.
pub proof fn lemma_eval_horner(s: Seq<FieldElement>, x: int, n: nat)
    requires
        n >= s.len(),
    ensures
        poly_eval(s, x) == horner(Seq::new(n, |k: int| coeff(s, k)), x),
{
    let e = Seq::<FieldElement>::empty();
    lemma_eval_difference(s, e, x, n, n);
    let d = coefficient_differences(s, e, n);
    assert(d.take(n as int) =~= d);
    assert(d =~= Seq::new(n, |k: int| coeff(s, k)));
    lemma_eval_upto_beyond(s, x, n);
    lemma_eval_upto_beyond(e, x, n);
    lemma_eval_upto_beyond(e, x, 0);
}

/// Coefficients congruent modulo `p` give congruent values.
pub proof fn lemma_horner_congruent_coeffs(u: Seq<int>, v: Seq<int>, y: int, p: int)
    requires
        p > 0,
        u.len() == v.len(),
        forall|j: int| 0 <= j < u.len() ==> #[trigger] (u[j] % p) == v[j] % p,
    ensures
        horner(u, y) % p == horner(v, y) % p,
    decreases u.len(),
{
    if u.len() > 0 {
        let u1 = u.drop_first();
        let v1 = v.drop_first();
        assert forall|j: int| 0 <= j < u1.len() implies #[trigger] (u1[j] % p) == v1[j] % p by {
            assert(u1[j] == u[j + 1] && v1[j] == v[j + 1]);
        }
        lemma_horner_congruent_coeffs(u1, v1, y, p);
        assert(u[0] % p == v[0] % p);
        lemma_mul_mod_noop_right(y, horner(u1, y), p);
        lemma_mul_mod_noop_right(y, horner(v1, y), p);
        lemma_add_mod_noop(u[0], y * horner(u1, y), p);
        lemma_add_mod_noop(v[0], y * horner(v1, y), p);
    }
}

/// Congruent points give congruent values.
pub proof fn lemma_horner_congruent_point(u: Seq<int>, y1: int, y2: int, p: int)
    requires
        p > 0,
        y1 % p == y2 % p,
    ensures
        horner(u, y1) % p == horner(u, y2) % p,
    decreases u.len(),
{
    if u.len() > 0 {
        let u1 = u.drop_first();
        lemma_horner_congruent_point(u1, y1, y2, p);
        lemma_mul_mod_noop(y1, horner(u1, y1), p);
        lemma_mul_mod_noop(y2, horner(u1, y2), p);
        lemma_add_mod_noop(u[0], y1 * horner(u1, y1), p);
        lemma_add_mod_noop(u[0], y2 * horner(u1, y2), p);
    }
}

/// Horner evaluation is linear in the coefficients.
pub proof fn lemma_horner_combination(u: Seq<int>, v: Seq<int>, a: int, y: int)
    requires
        u.len() == v.len(),
    ensures
        horner(Seq::new(u.len(), |j: int| u[j] + a * v[j]), y) == horner(u, y) + a * horner(v, y),
    decreases u.len(),
{
    let w = Seq::new(u.len(), |j: int| u[j] + a * v[j]);
    if u.len() == 0 {
        lemma_mul_basics(a);
    } else {
        let u1 = u.drop_first();
        let v1 = v.drop_first();
        lemma_horner_combination(u1, v1, a, y);
        assert(w.drop_first() =~= Seq::new(u1.len(), |j: int| u1[j] + a * v1[j]));
        let hu = horner(u1, y);
        let hv = horner(v1, y);
        assert(u[0] + a * v[0] + y * (hu + a * hv) == (u[0] + y * hu) + a * (v[0] + y * hv)) by (nonlinear_arith);
    }
}

/// The even/odd split: for `2m` coefficients `s`,
/// `s(x) = s_even(x²) + x · s_odd(x²)`.
pub proof fn lemma_even_odd(s: Seq<int>, m: nat, x: int)
    requires
        s.len() == 2 * m,
    ensures
        horner(s, x) == horner(Seq::new(m, |j: int| s[2 * j]), x * x) + x * horner(
            Seq::new(m, |j: int| s[2 * j + 1]),
            x * x,
        ),
    decreases m,
{
    let ev = Seq::new(m, |j: int| s[2 * j]);
    let od = Seq::new(m, |j: int| s[2 * j + 1]);
    if m == 0 {
        lemma_mul_basics(x);
    } else {
        let t = s.skip(2);
        lemma_even_odd(t, (m - 1) as nat, x);
        let evt = Seq::new((m - 1) as nat, |j: int| t[2 * j]);
        let odt = Seq::new((m - 1) as nat, |j: int| t[2 * j + 1]);
        assert(ev.drop_first() =~= evt);
        assert(od.drop_first() =~= odt);
        assert(s.drop_first().drop_first() =~= t);
        let y = x * x;
        let he = horner(evt, y);
        let ho = horner(odt, y);
        let ht = horner(t, x);
        assert(horner(s.drop_first(), x) == s[1] + x * ht);
        assert(horner(s, x) == s[0] + x * (s[1] + x * ht));
        assert(s[0] + x * (s[1] + x * ht) == (s[0] + y * he) + x * (s[1] + y * ho)) by (nonlinear_arith)
            requires
                ht == he + x * ho,
                y == x * x,
        ;
    }
}

} // verus!
