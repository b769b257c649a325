//! Folding keeps codewords low-degree: if a layer holds the values of a
//! polynomial `P` on its coset, the fold with challenge `alpha` holds the
//! values of `P_even + alpha · P_odd` on the squared coset, which has half
//! as many coefficients.

use vstd::prelude::*;
use vstd::arithmetic::div_mod::*;
use vstd::arithmetic::mul::*;
use vstd::arithmetic::power::*;
use vstd::arithmetic::power2::*;

use crate::field::prime::is_prime;
use crate::field::{Field, FieldElement};
use crate::fri::fold::{codeword_in_field, fold_value};
use crate::fri::honest::lemma_fold_on_line;
use crate::fri::{fold_point, folded, fri_challenge, FriProofItem};
use crate::polynomial::roots::{
    horner, lemma_eval_horner, lemma_eval_line, lemma_even_odd, lemma_horner_combination,
    lemma_horner_congruent_coeffs, lemma_horner_congruent_point, lemma_interpolation_unique,
};
use crate::polynomial::{coeff, poly_eval};

verus! {

/// The polynomial a fold with challenge `alpha` turns `p` into:
/// `p_even + alpha · p_odd`, in the field `f`.
pub open spec fn fold_poly(p: Seq<FieldElement>, alpha: FieldElement, f: Field) -> Seq<FieldElement> {
    Seq::new(((p.len() + 1) / 2) as nat, |j: int| f.element_of(coeff(p, 2 * j) + alpha.value * coeff(p, 2 * j + 1)))
}

/// The polynomial of layer `k` of a transcript whose first layer holds the
/// values of `poly`: `poly` folded with the challenges drawn after the
/// first `k` roots.
pub open spec fn layer_poly(
    poly: Seq<FieldElement>,
    objs: Seq<FriProofItem>,
    base: int,
    prefix: Seq<u8>,
    f: Field,
    k: nat,
) -> Seq<FieldElement>
    decreases k,
{
    if k == 0 {
        poly
    } else {
        fold_poly(layer_poly(poly, objs, base, prefix, f, (k - 1) as nat), fri_challenge(f, prefix, objs, base + k), f)
    }
}

/// The domain point of position `i` after `k + 1` foldings is the square
/// of the one after `k`.
proof fn lemma_point_square(off: int, om: int, k: nat, i: int)
    requires
        i >= 0,
    ensures
        fold_point(off, om, k + 1, i) == fold_point(off, om, k, i) * fold_point(off, om, k, i),
{
    lemma_pow2_unfold(k + 1);
    let e = pow2(k);
    let a = pow(off, e);
    let b = pow(om, (e * i) as nat);
    lemma_pow_adds(off, e, e);
    assert((pow2(k + 1) * i) as nat == (e * i) as nat + (e * i) as nat) by (nonlinear_arith)
        requires
            pow2(k + 1) == 2 * e,
            i >= 0,
    ;
    lemma_pow_adds(om, (e * i) as nat, (e * i) as nat);
    assert((a * a) * (b * b) == (a * b) * (a * b)) by (nonlinear_arith);
}

/// One fold of a layer holding the values of `pp` on the coset reached
/// after `k` foldings holds the values of `fold_poly(pp, alpha)` on the
/// next coset.
pub proof fn lemma_fold_layer(
    pp: Seq<FieldElement>,
    c: Seq<FieldElement>,
    next: Seq<FieldElement>,
    alpha: FieldElement,
    off: int,
    om: int,
    k: nat,
    f: Field,
)
    requires
        is_prime(f.p as int),
        f.p > 2,
        c.len() >= 2,
        c.len() % 2 == 0,
        folded(c, next, alpha, off, om, k, f.p as int),
        codeword_in_field(c, f),
        forall|i: int| 0 <= i < c.len() ==> (#[trigger] c[i]).value == poly_eval(pp, fold_point(off, om, k, i)) % (f.p as int),
        pow(om, pow2(k) * (c.len() / 2)) % (f.p as int) == f.p - 1,
        forall|i: int| 0 <= i < c.len() ==> #[trigger] fold_point(off, om, k, i) % (f.p as int) != 0,
    ensures
        forall|i: int|
            0 <= i < next.len() ==> (#[trigger] next[i]).value == poly_eval(
                fold_poly(pp, alpha, f),
                fold_point(off, om, k + 1, i),
            ) % (f.p as int),
{
    let p = f.p as int;
    let half = (c.len() / 2) as int;
    let m = ((pp.len() + 1) / 2) as nat;
    let s = Seq::new(2 * m, |j: int| coeff(pp, j));
    let ev = Seq::new(m, |j: int| s[2 * j]);
    let od = Seq::new(m, |j: int| s[2 * j + 1]);
    let q = fold_poly(pp, alpha, f);
    let al = alpha.value as int;
    assert forall|i: int| 0 <= i < next.len() implies (#[trigger] next[i]).value == poly_eval(
        q,
        fold_point(off, om, k + 1, i),
    ) % p by {
        let x = fold_point(off, om, k, i);
        let x2 = fold_point(off, om, k, i + half);
        let y = fold_point(off, om, k + 1, i);
        lemma_point_square(off, om, k, i);
        assert(c[i].wf() && c[i].field == f && c[i + half].wf() && c[i + half].field == f);
        let line = lemma_fold_on_line(c, i, alpha, next[i], off, om, k, f);
        let xr = x % p;
        let xr2 = x2 % p;
        lemma_mod_bound(x, p);
        lemma_mod_bound(x2, p);
        // the square of x' is congruent to y
        let w = pow(om, pow2(k) * (half as nat));
        assert(x2 == x * w) by {
            lemma_mul_is_distributive_add(pow2(k) as int, i, half);
            lemma_pow_adds(om, pow2(k) * (i as nat), pow2(k) * (half as nat));
            lemma_mul_is_associative(pow(off, pow2(k)), pow(om, pow2(k) * (i as nat)), w);
        }
        assert(x2 * x2 == y * (w * w)) by (nonlinear_arith)
            requires
                x2 == x * w,
                y == x * x,
        ;
        lemma_mul_mod_noop(w, w, p);
        assert((p - 1) * (p - 1) == p * (p - 2) + 1) by (nonlinear_arith);
        lemma_mod_multiples_vanish(p - 2, 1, p);
        lemma_small_mod(1, p as nat);
        assert((w * w) % p == 1);
        lemma_mul_mod_noop_right(y, w * w, p);
        lemma_mul_basics(y);
        assert((x2 * x2) % p == y % p);
        // pp(x) = E + x·O and pp(x') ≡ E + x'·O
        lemma_eval_horner(pp, x, 2 * m);
        lemma_eval_horner(pp, x2, 2 * m);
        lemma_even_odd(s, m, x);
        lemma_even_odd(s, m, x2);
        let e = horner(ev, y);
        let o = horner(od, y);
        lemma_horner_congruent_point(ev, x2 * x2, y, p);
        lemma_horner_congruent_point(od, x2 * x2, y, p);
        assert(c[i].value == (e + x * o) % p);
        let e2 = horner(ev, x2 * x2);
        let o2 = horner(od, x2 * x2);
        assert(c[i + half].value == (e2 + x2 * o2) % p);
        // congruences with the reduced points
        assert((e + o * xr) % p == c[i].value) by {
            lemma_mul_mod_noop_right(o, x, p);
            lemma_mul_is_commutative(o, x);
            lemma_add_mod_noop(e, o * x, p);
            lemma_add_mod_noop(e, o * xr, p);
        }
        assert((e + o * xr2) % p == c[i + half].value) by {
            lemma_mul_mod_noop(o, x2, p);
            lemma_mul_mod_noop(o2, x2, p);
            lemma_mul_mod_noop_right(o, x2, p);
            lemma_mul_is_commutative(o2, x2);
            lemma_add_mod_noop(e, o * x2, p);
            lemma_add_mod_noop(e2, o2 * x2, p);
            lemma_add_mod_noop(e, o * xr2, p);
        }
        // the line through the two opened points is (E, O)
        let la = seq![f.element_of(line.0), f.element_of(line.1)];
        let lb = seq![f.element_of(e), f.element_of(o)];
        let xs = seq![xr, xr2];
        lemma_eval_line(line.0, line.1, xr, f);
        lemma_eval_line(line.0, line.1, xr2, f);
        lemma_eval_line(e, o, xr, f);
        lemma_eval_line(e, o, xr2, f);
        lemma_small_mod(xr as nat, p as nat);
        lemma_small_mod(xr2 as nat, p as nat);
        assert(f.element_of(x).value == xr);
        assert(f.element_of(x2).value == xr2);
        assert forall|u: int| 0 <= u < xs.len() implies #[trigger] poly_eval(la, xs[u]) % p == poly_eval(lb, xs[u])
            % p by {}
        assert forall|u: int, v: int|
            #![trigger xs[u], xs[v]]
            0 <= u < xs.len() && 0 <= v < xs.len() && u != v implies (xs[u] - xs[v]) % p != 0 by {
            crate::polynomial::lemma_diff_nonzero(xs[u], xs[v], p);
        }
        assert forall|u: int| 0 <= u < la.len() implies (#[trigger] la[u]).value < p by {
            lemma_mod_bound(line.0, p);
            lemma_mod_bound(line.1, p);
        }
        assert forall|u: int| 0 <= u < lb.len() implies (#[trigger] lb[u]).value < p by {
            lemma_mod_bound(e, p);
            lemma_mod_bound(o, p);
        }
        lemma_interpolation_unique(la, lb, xs, p);
        assert(coeff(la, 0) == coeff(lb, 0));
        assert(coeff(la, 1) == coeff(lb, 1));
        assert(line.0 % p == e % p);
        assert(line.1 % p == o % p);
        // so the fold value is E + alpha·O
        assert(next[i].value == (e + o * al) % p) by {
            lemma_mul_mod_noop_left(line.1, al, p);
            lemma_mul_mod_noop_left(o, al, p);
            lemma_add_mod_noop(line.0, line.1 * al, p);
            lemma_add_mod_noop(e, o * al, p);
        }
        // and q(y) ≡ E + alpha·O
        let qc = Seq::new(m, |j: int| coeff(q, j));
        let comb = Seq::new(ev.len(), |j: int| ev[j] + al * od[j]);
        assert forall|j: int| 0 <= j < qc.len() implies #[trigger] (qc[j] % p) == comb[j] % p by {
            assert(qc[j] == (coeff(pp, 2 * j) + al * coeff(pp, 2 * j + 1)) % p);
            assert(ev[j] == coeff(pp, 2 * j));
            assert(od[j] == coeff(pp, 2 * j + 1));
            lemma_mod_twice(coeff(pp, 2 * j) + al * coeff(pp, 2 * j + 1), p);
        }
        lemma_eval_horner(q, y, m);
        lemma_horner_congruent_coeffs(qc, comb, y, p);
        lemma_horner_combination(ev, od, al, y);
        lemma_mul_is_commutative(al, o);
    }
}

} // verus!
