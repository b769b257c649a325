//! What an honest prover's openings satisfy: a fold value lies on the
//! line through the two values it folds, so the verifier's colinearity
//! test accepts it whenever the challenge avoids the two domain points.

use vstd::prelude::*;
use vstd::arithmetic::div_mod::*;
use vstd::arithmetic::mul::*;
use vstd::arithmetic::power::*;
use vstd::arithmetic::power2::*;

use crate::field::arith::spec_inverse;
use crate::field::laws::lemma_inverse_cancels;
use crate::field::prime::{is_prime, lemma_pow_one_power, lemma_prime_unit};
use crate::field::{Field, FieldElement};
use crate::crypto::merkle::{byte_views, lemma_commit_open_verify, merkle_path, hashed_leaves};
use crate::crypto::digest::shake256_output;
use crate::crypto::proof_stream::{challenge_input, lemma_decoded_challenges_agree};
use crate::crypto::encoding::{blob_encoding, concat_encodings, element_encoding, fits_at, lemma_decoded_list_agrees, list_encoding, Encode};
use crate::fri::item::{fri_item_body, fri_item_tag};
use vstd::bytes::*;
use crate::field::bytes_to_nat;
use crate::fri::fold::{codeword_in_field, fold_value};
use crate::fri::{
    codeword_leaves, codeword_root, colinear_checked, commits_layers, fold_point, folded, fri_challenge,
    is_path_of, is_root_of, layers_ok, lemma_rounds_lengths, path_checked, path_of, query_value_a,
    query_value_b, query_value_c, query_written, queries_written, round_indices, round_start, rounds_for,
    sample_checked, transcript_ok, Fri, FriProofItem,
};
use crate::fri::degree::{fold_poly, layer_poly, lemma_fold_layer};
use crate::fri::{codeword_of, coset_points, is_last_codeword, last_layer_checked, root_of, verifier_top};
use crate::math::{lemma_unit_mul, lemma_unit_nonzero, lemma_unit_pow};
use crate::polynomial::roots::{
    horner, lemma_eval_horner, lemma_horner_congruent_point, lemma_interpolation_unique, lemma_lagrange_sum,
    lemma_line_is_linear, lemma_prime_differences_invertible,
};
use crate::polynomial::{coeff, lagrange_sum, lemma_diff_nonzero, on_line, poly_eval};

verus! {

/// Modulo an odd prime, the inverse of a non-zero residue times the
/// residue is one, and the inverse is a residue.
proof fn lemma_inverse_times(x: int, f: Field)
    requires
        is_prime(f.p as int),
        0 < x < f.p,
    ensures
        (x * spec_inverse(x as nat, f.p as nat)) % (f.p as int) == 1,
        0 <= spec_inverse(x as nat, f.p as nat) < f.p,
{
    let p = f.p as int;
    lemma_small_mod(x as nat, p as nat);
    lemma_prime_unit(x, p);
    let e = f.element_of(x);
    assert(e.value == x);
    lemma_inverse_cancels(e);
    let inv = spec_inverse(x as nat, p as nat) as int;
    lemma_mod_bound(crate::math::spec_xgcd(x as nat, p as nat).0, p);
    lemma_small_mod(inv as nat, p as nat);
    lemma_small_mod(1, p as nat);
}

/// An honest fold lies on a line.  On the coset reached after `k`
/// foldings, where the `2^k · half`-th power of `omega` is `−1`, the
/// points `(x, c[i])`, `(x', c[i + half])` and `(alpha, fold)` — `x` and
/// `x'` the domain points of positions `i` and `i + half`, `fold` the
/// fold value at `i` — lie on the line `y = a + b·x` that the result
/// gives; and the two domain points differ.
pub proof fn lemma_fold_on_line(
    c: Seq<FieldElement>,
    i: int,
    alpha: FieldElement,
    cy: FieldElement,
    off: int,
    om: int,
    k: nat,
    f: Field,
) -> (line: (int, int))
    requires
        is_prime(f.p as int),
        f.p > 2,
        0 <= i < c.len() / 2,
        c[i].wf() && c[i].field == f,
        c[i + c.len() / 2].wf() && c[i + c.len() / 2].field == f,
        fold_point(off, om, k, i) % (f.p as int) != 0,
        pow(om, pow2(k) * (c.len() / 2)) % (f.p as int) == f.p - 1,
        cy.value == fold_value(c, i, alpha.value as int, fold_point(off, om, k, i), f.p as int),
    ensures
        on_line(
            seq![
                (f.element_of(fold_point(off, om, k, i)), c[i]),
                (f.element_of(fold_point(off, om, k, i + c.len() / 2)), c[i + c.len() / 2]),
                (alpha, cy),
            ],
            line.0,
            line.1,
            f.p as int,
        ),
        f.element_of(fold_point(off, om, k, i)).value != f.element_of(fold_point(off, om, k, i + c.len() / 2)).value,
{
    let p = f.p as int;
    let half = (c.len() / 2) as int;
    let x = fold_point(off, om, k, i);
    let x2 = fold_point(off, om, k, i + half);
    let xr = x % p;
    let xr2 = x2 % p;
    lemma_mod_bound(x, p);
    lemma_mod_bound(x2, p);
    // x' = x · omega^(2^k · half), so x' ≡ −x
    let w = pow(om, pow2(k) * (half as nat));
    assert(x2 == x * w) by {
        lemma_mul_is_distributive_add(pow2(k) as int, i, half);
        lemma_pow_adds(om, pow2(k) * (i as nat), pow2(k) * (half as nat));
        lemma_mul_is_associative(pow(off, pow2(k)), pow(om, pow2(k) * (i as nat)), w);
    }
    lemma_mul_mod_noop(x, w, p);
    assert(xr2 == (xr * (p - 1)) % p);
    assert(xr * (p - 1) == p * (xr - 1) + (p - xr)) by (nonlinear_arith);
    lemma_mod_multiples_vanish(xr - 1, p - xr, p);
    lemma_small_mod((p - xr) as nat, p as nat);
    assert(xr2 == p - xr);
    assert(p % 2 != 0);
    if xr == xr2 {
        assert(p == 2 * xr);
        lemma_mod_multiples_vanish(xr, 0, 2);
        lemma_small_mod(0, 2);
    }
    // the inverses of x and of 2
    lemma_inverse_times(xr, f);
    lemma_inverse_times(2, f);
    lemma_small_mod(2, p as nat);
    let xi = spec_inverse(xr as nat, p as nat) as int;
    let inv2 = spec_inverse(2, p as nat) as int;
    assert(fold_value(c, i, alpha.value as int, x, p) == (inv2 * ((1 + alpha.value * xi) * c[i].value + (1
        - alpha.value * xi) * c[half + i].value)) % p);
    let ci = c[i].value as int;
    let cj = c[i + half].value as int;
    let al = alpha.value as int;
    let a = (inv2 * (ci + cj)) % p;
    let b = (inv2 * xi * (ci - cj)) % p;
    lemma_fundamental_div_mod(inv2 * (ci + cj), p);
    lemma_fundamental_div_mod(inv2 * xi * (ci - cj), p);
    lemma_fundamental_div_mod(xr * xi, p);
    lemma_fundamental_div_mod(2 * inv2, p);
    let qa = (inv2 * (ci + cj)) / p;
    let qb = (inv2 * xi * (ci - cj)) / p;
    let qu = (xr * xi) / p;
    let qt = (2 * inv2) / p;
    assert(xi * xr == xr * xi) by (nonlinear_arith);
    assert(a == inv2 * (ci + cj) - p * qa);
    assert(b == inv2 * xi * (ci - cj) - p * qb);
    assert(xr * xi == p * qu + 1);
    assert(2 * inv2 == p * qt + 1);
    let m = inv2 * (ci - cj);
    let d = inv2 * xi * (ci - cj);
    assert(d * xr == m * (xi * xr)) by (nonlinear_arith)
        requires
            d == inv2 * xi * (ci - cj),
            m == inv2 * (ci - cj),
    ;
    assert(m * (xi * xr) == m + p * (m * qu)) by (nonlinear_arith)
        requires
            xi * xr == p * qu + 1,
    ;
    assert(inv2 * (ci + cj) + m == ci * (2 * inv2)) by (nonlinear_arith)
        requires
            m == inv2 * (ci - cj),
    ;
    assert(ci * (2 * inv2) == ci + p * (ci * qt)) by (nonlinear_arith)
        requires
            2 * inv2 == p * qt + 1,
    ;
    assert(inv2 * (ci + cj) - m == cj * (2 * inv2)) by (nonlinear_arith)
        requires
            m == inv2 * (ci - cj),
    ;
    assert(cj * (2 * inv2) == cj + p * (cj * qt)) by (nonlinear_arith)
        requires
            2 * inv2 == p * qt + 1,
    ;
    // at x: a + b·x ≡ c[i]
    assert(b * xr == d * xr - p * (qb * xr)) by (nonlinear_arith)
        requires
            b == d - p * qb,
    ;
    let k1 = ci * qt + m * qu - qa - qb * xr;
    assert(a + b * xr == p * k1 + ci) by {
        lemma_mul_is_distributive_add(p, ci * qt, m * qu);
        lemma_mul_is_distributive_sub(p, ci * qt + m * qu, qa);
        lemma_mul_is_distributive_sub(p, ci * qt + m * qu - qa, qb * xr);
    }
    lemma_mod_multiples_vanish(k1, ci, p);
    lemma_small_mod(ci as nat, p as nat);
    // at x' = p − x: a + b·x' ≡ c[i + half]
    assert(b * xr2 == p * b - b * xr) by (nonlinear_arith)
        requires
            xr2 == p - xr,
    ;
    let k2 = cj * qt - qa - m * qu + qb * xr + b;
    assert(a + b * xr2 == p * k2 + cj) by {
        lemma_mul_is_distributive_sub(p, cj * qt, qa);
        lemma_mul_is_distributive_sub(p, cj * qt - qa, m * qu);
        lemma_mul_is_distributive_add(p, cj * qt - qa - m * qu, qb * xr);
        lemma_mul_is_distributive_add(p, cj * qt - qa - m * qu + qb * xr, b);
    }
    lemma_mod_multiples_vanish(k2, cj, p);
    lemma_small_mod(cj as nat, p as nat);
    // at alpha: a + b·alpha ≡ the fold value
    let fv = inv2 * ((1 + al * xi) * ci + (1 - al * xi) * cj);
    let u = al * xi;
    assert((1 + u) * ci + (1 - u) * cj == (ci + cj) + u * (ci - cj)) by (nonlinear_arith);
    assert(inv2 * ((ci + cj) + u * (ci - cj)) == inv2 * (ci + cj) + inv2 * (u * (ci - cj))) by {
        lemma_mul_is_distributive_add(inv2, ci + cj, u * (ci - cj));
    }
    assert(d * al == inv2 * (u * (ci - cj))) by (nonlinear_arith)
        requires
            d == inv2 * xi * (ci - cj),
            u == al * xi,
    ;
    assert(inv2 * (ci + cj) + d * al == fv);
    assert(b * al == d * al - p * (qb * al)) by (nonlinear_arith)
        requires
            b == d - p * qb,
    ;
    let k3 = -(qa + qb * al);
    assert(p * k3 == -(p * qa) - p * (qb * al)) by (nonlinear_arith)
        requires
            k3 == -(qa + qb * al),
    ;
    assert(a + b * al == p * k3 + fv);
    lemma_mod_multiples_vanish(k3, fv, p);
    let pts = seq![
        (f.element_of(x), c[i]),
        (f.element_of(x2), c[i + half]),
        (alpha, cy),
    ];
    assert(on_line(pts, a, b, p));
    (a, b)
}

/// The verifier's colinearity test accepts an honest fold: with the
/// values in the field, a non-zero domain point, the `2^k · half`-th power
/// of `omega` equal to `−1` in a prime field, and a challenge that is
/// neither of the two domain points, the points `(x, c[i])`,
/// `(x', c[i + half])`, `(alpha, fold)` pass.
pub proof fn lemma_honest_fold_passes(
    c: Seq<FieldElement>,
    i: int,
    alpha: FieldElement,
    cy: FieldElement,
    off: int,
    om: int,
    k: nat,
    f: Field,
)
    requires
        is_prime(f.p as int),
        f.p > 2,
        0 <= i < c.len() / 2,
        c[i].wf() && c[i].field == f,
        c[i + c.len() / 2].wf() && c[i + c.len() / 2].field == f,
        alpha.wf() && alpha.field == f,
        cy.wf() && cy.field == f,
        fold_point(off, om, k, i) % (f.p as int) != 0,
        pow(om, pow2(k) * (c.len() / 2)) % (f.p as int) == f.p - 1,
        cy.value == fold_value(c, i, alpha.value as int, fold_point(off, om, k, i), f.p as int),
        alpha.value != f.element_of(fold_point(off, om, k, i)).value,
        alpha.value != f.element_of(fold_point(off, om, k, i + c.len() / 2)).value,
    ensures
        colinear_checked(
            f.element_of(fold_point(off, om, k, i)),
            c[i],
            f.element_of(fold_point(off, om, k, i + c.len() / 2)),
            c[i + c.len() / 2],
            alpha,
            cy,
            f,
        ),
{
    let p = f.p as int;
    let half = (c.len() / 2) as int;
    let ax = f.element_of(fold_point(off, om, k, i));
    let bx = f.element_of(fold_point(off, om, k, i + half));
    let line = lemma_fold_on_line(c, i, alpha, cy, off, om, k, f);
    lemma_mod_bound(fold_point(off, om, k, i), p);
    lemma_mod_bound(fold_point(off, om, k, i + half), p);
    let pts = seq![(ax, c[i]), (bx, c[i + half]), (alpha, cy)];
    assert forall|u: int|
        0 <= u < pts.len() implies (#[trigger] pts[u]).0.field == pts[0].0.field && pts[u].1.field == pts[0].0.field
            && pts[u].0.wf() && pts[u].1.wf() by {}
    lemma_line_is_linear(pts, line.0, line.1);
}

/// Layer `k` of an honest commitment, below the number of rounds: in the
/// field, `d / 2^k` elements, a power of two that is more than the
/// expansion factor, more than four times the tests, and at least two,
/// with `2^k` times its length equal to `d`.
proof fn lemma_layer_facts(fri: Fri, cws: Seq<Seq<FieldElement>>, k: nat)
    requires
        layers_ok(cws, fri.domain_length_spec(), fri.field_spec()),
        cws.len() == fri.rounds_spec(),
        k < fri.rounds_spec(),
        fri.expansion_spec() >= 1,
    ensures
        codeword_in_field(cws[k as int], fri.field_spec()),
        cws[k as int].len() == fri.domain_length_spec() / pow2(k),
        is_pow2(cws[k as int].len() as int),
        cws[k as int].len() > fri.expansion_spec(),
        cws[k as int].len() > 4 * fri.tests_spec(),
        cws[k as int].len() >= 2,
        pow2(k) * cws[k as int].len() == fri.domain_length_spec(),
    decreases k,
{
    let d = fri.domain_length_spec();
    reveal(layers_ok);
    lemma_rounds_lengths(d, fri.expansion_spec(), fri.tests_spec(), k);
    if k > 0 {
        lemma_layer_facts(fri, cws, (k - 1) as nat);
        let l0 = cws[k - 1].len();
        reveal(is_pow2);
        assert(l0 % 2 == 0);
        lemma_pow2_unfold(k);
        lemma_pow2_pos((k - 1) as nat);
        lemma_div_denominator(d as int, pow2((k - 1) as nat) as int, 2);
        assert(cws[k as int].len() == l0 / 2);
        lemma_fundamental_div_mod(l0 as int, 2);
        let h = l0 / 2;
        assert(pow2(k) * h == pow2((k - 1) as nat) * l0) by {
            lemma_mul_is_associative(pow2((k - 1) as nat) as int, 2, h as int);
            lemma_mul_is_commutative(pow2((k - 1) as nat) as int, 2);
            lemma_mul_is_associative(2, pow2((k - 1) as nat) as int, h as int);
        }
    } else {
        lemma2_to64();
        assert(d / pow2(0) == d);
    }
}

/// The index queried in round `k` is the top-level index reduced below
/// half the length of layer `k`.
proof fn lemma_round_index(fri: Fri, cws: Seq<Seq<FieldElement>>, top: Seq<usize>, k: nat, s: int)
    requires
        layers_ok(cws, fri.domain_length_spec(), fri.field_spec()),
        cws.len() == fri.rounds_spec(),
        k + 1 < fri.rounds_spec(),
        fri.expansion_spec() >= 1,
        0 <= s < top.len(),
    ensures
        round_indices(top, cws, k).len() == top.len(),
        fri.domain_length_spec() / pow2(k + 1) == cws[k as int].len() / 2,
        fri.domain_length_spec() / pow2(k + 1) > 0,
        round_indices(top, cws, k)[s] as int == (top[s] as int) % ((fri.domain_length_spec() / pow2(k + 1)) as int),
    decreases k,
{
    reveal(layers_ok);
    lemma_layer_facts(fri, cws, k);
    lemma_layer_facts(fri, cws, k + 1);
    let half = cws[k as int].len() / 2;
    let d = fri.domain_length_spec();
    lemma_pow2_unfold(k + 1);
    lemma_pow2_pos(k);
    lemma_div_denominator(d as int, pow2(k) as int, 2);
    assert(pow2(k) * 2 == pow2(k + 1));
    assert(d / pow2(k + 1) == half);
    lemma_mod_bound(top[s] as int, half as int);
    if k == 0 {
        assert(round_indices(top, cws, k) == crate::fri::reduced_mod(top, half as int));
        assert(round_indices(top, cws, k)[s] == (top[s] as int % (half as int)) as usize);
    } else {
        lemma_round_index(fri, cws, top, (k - 1) as nat, s);
        let prev = round_indices(top, cws, (k - 1) as nat);
        assert(cws[k - 1].len() / 2 == cws[k as int].len());
        reveal(is_pow2);
        lemma_fundamental_div_mod(cws[k as int].len() as int, 2);
        assert(cws[k as int].len() == half * 2);
        lemma_mod_mod(top[s] as int, half as int, 2);
        lemma_mod_bound(prev[s] as int, half as int);
        assert(round_indices(top, cws, k) == crate::fri::reduced_mod(prev, half as int));
        assert(round_indices(top, cws, k)[s] == (prev[s] as int % (half as int)) as usize);
    }
}

/// An honest authentication path passes the verifier's path check.
proof fn lemma_honest_path(c: Seq<FieldElement>, idx: int, item: FriProofItem)
    requires
        is_path_of(item, idx, c),
        0 <= idx < c.len(),
        c.len() >= 2,
        c.len() <= usize::MAX,
        is_pow2(c.len() as int),
    ensures
        item is AuthenticationPath,
        path_checked(codeword_root(c), idx, path_of(item), c[idx]),
{
    let data = codeword_leaves(c);
    lemma_commit_open_verify(idx as nat, data);
    let path = merkle_path(idx, hashed_leaves(data));
    assert(path_of(item) == path);
    let n = path.len();
    lemma2_to64();
    if n == 0 {
        assert(pow2(0) == 1);
    }
    if n >= 64 {
        if n > 64 {
            lemma_pow2_strictly_increases(64, n);
        }
    }
    if n >= usize::BITS {
        if n > usize::BITS {
            lemma_pow2_strictly_increases(usize::BITS as nat, n);
        }
    }
}

/// A domain point of a coset with invertible offset and generator is not
/// zero modulo a prime.
proof fn lemma_point_nonzero(off: int, om: int, k: nat, i: int, p: int)
    requires
        is_prime(p),
        off % p != 0,
        om % p != 0,
        i >= 0,
    ensures
        fold_point(off, om, k, i) % p != 0,
{
    lemma_prime_unit(off, p);
    lemma_prime_unit(om, p);
    lemma_unit_pow(off, pow2(k), p);
    lemma_unit_pow(om, (pow2(k) * i) as nat, p);
    lemma_unit_mul(pow(off, pow2(k)), pow(om, (pow2(k) * i) as nat), p);
    lemma_unit_nonzero(fold_point(off, om, k, i), p);
}

/// Every sample of an honest transcript passes the verifier's checks:
/// the query values sit where the verifier reads them, their colinearity
/// test passes, and the three authentication paths verify against the
/// layers' roots — provided the round's challenge is neither of the two
/// domain points it is tested against.
#[verifier::rlimit(100)]
#[verifier::spinoff_prover]
pub proof fn lemma_honest_sample(
    fri: Fri,
    objs: Seq<FriProofItem>,
    base: int,
    prefix: Seq<u8>,
    codeword: Seq<FieldElement>,
    cws: Seq<Seq<FieldElement>>,
    top: Seq<usize>,
    rd: int,
    s: int,
)
    requires
        is_prime(fri.field_spec().p as int),
        fri.field_spec().p > 2,
        fri.expansion_spec() >= 1,
        fri.offset_spec().value as int % (fri.field_spec().p as int) != 0,
        fri.omega_spec().value as int % (fri.field_spec().p as int) != 0,
        pow(fri.omega_spec().value as int, fri.domain_length_spec() / 2) % (fri.field_spec().p as int)
            == fri.field_spec().p - 1,
        base >= 0,
        codeword.len() == fri.domain_length_spec(),
        commits_layers(
            objs,
            base,
            prefix,
            codeword,
            cws,
            fri.rounds_spec(),
            fri.field_spec(),
            fri.offset_spec().value as int,
            fri.omega_spec().value as int,
        ),
        queries_written(objs, base, cws, top, fri.rounds_spec(), fri.tests_spec()),
        top.len() == fri.tests_spec(),
        objs.len() == base + fri.rounds_spec() + 1 + (fri.rounds_spec() - 1) * (4 * fri.tests_spec()),
        fri.rounds_spec() > 1,
        0 <= rd < fri.rounds_spec() - 1,
        0 <= s < fri.tests_spec(),
        ({
            let half = (fri.domain_length_spec() / pow2((rd + 1) as nat)) as int;
            let a = (top[s] as int) % half;
            let alpha = fri_challenge(fri.field_spec(), prefix, objs, base + rd + 1);
            &&& alpha.value != fri.field_spec().element_of(
                fold_point(fri.offset_spec().value as int, fri.omega_spec().value as int, rd as nat, a),
            ).value
            &&& alpha.value != fri.field_spec().element_of(
                fold_point(fri.offset_spec().value as int, fri.omega_spec().value as int, rd as nat, a + half),
            ).value
        }),
    ensures
        sample_checked(
            objs,
            base,
            prefix,
            fri.rounds_spec(),
            fri.tests_spec(),
            fri.domain_length_spec(),
            fri.field_spec(),
            fri.offset_spec().value as int,
            fri.omega_spec().value as int,
            top,
            rd,
            s,
        ),
{
    let f = fri.field_spec();
    let p = f.p as int;
    let r = fri.rounds_spec();
    let t = fri.tests_spec();
    let d = fri.domain_length_spec();
    let off = fri.offset_spec().value as int;
    let om = fri.omega_spec().value as int;
    lemma_layer_facts(fri, cws, rd as nat);
    lemma_layer_facts(fri, cws, (rd + 1) as nat);
    lemma_round_index(fri, cws, top, rd as nat, s);
    let cur = cws[rd];
    let next = cws[rd + 1];
    let half = (d / pow2((rd + 1) as nat)) as int;
    assert(half == cur.len() / 2);
    let a = (top[s] as int) % half;
    let rs = round_start(base, r, t, rd);
    let qpos = rs + s;
    let ppos = rs + t + 3 * s;
    assert(query_written(objs, qpos, ppos, round_indices(top, cws, rd as nat)[s] as int, cur, next));
    assert(round_indices(top, cws, rd as nat)[s] as int == a);
    lemma_mod_bound(top[s] as int, half);
    // positions within the transcript
    assert(ppos + 2 < objs.len()) by {
        assert(rd * (4 * t) + 4 * t <= (r - 1) * (4 * t)) by (nonlinear_arith)
            requires
                rd + 1 <= r - 1,
                t >= 0,
        ;
    }
    // colinearity
    let alpha = fri_challenge(f, prefix, objs, base + rd + 1);
    assert(folded(cur, next, alpha, off, om, rd as nat, p) && is_root_of(objs[base + rd], cur) && is_root_of(
        objs[base + rd + 1],
        next,
    )) by {
        reveal(transcript_ok);
    }
    assert(next.len() == half);
    let cy = next[a];
    assert(cy.value == fold_value(cur, a, alpha.value as int, fold_point(off, om, rd as nat, a), p));
    lemma_point_nonzero(off, om, rd as nat, a, p);
    lemma_half_exponent(fri, cws, rd as nat);
    lemma_mod_bound(bytes_to_nat(shake256_output(challenge_input(prefix, objs, base + rd + 1), 32)) as int, p);
    lemma_honest_fold_passes(cur, a, alpha, cy, off, om, rd as nat, f);
    // the three authentication paths
    lemma_honest_path(cur, a, objs[ppos]);
    lemma_honest_path(cur, a + half, objs[ppos + 1]);
    lemma_honest_path(next, a, objs[ppos + 2]);
}

/// `−1` to an odd power is `−1` modulo `p > 2`.
proof fn lemma_minus_one_odd(m: nat, p: int)
    requires
        p > 2,
        m % 2 == 1,
    ensures
        pow(p - 1, m) % p == p - 1,
{
    let j = m / 2;
    assert(m == 2 * j + 1);
    lemma_pow_adds(p - 1, 1, 1);
    lemma_pow1(p - 1);
    assert((p - 1) * (p - 1) == p * (p - 2) + 1) by (nonlinear_arith);
    lemma_mod_multiples_vanish(p - 2, 1, p);
    lemma_small_mod(1, p as nat);
    assert(pow(p - 1, 2) % p == 1);
    lemma_pow_one_power(p - 1, 2, j, p);
    lemma_pow_adds(p - 1, 2 * j, 1);
    lemma_mul_mod_noop_left(pow(p - 1, 2 * j), p - 1, p);
    lemma_small_mod((p - 1) as nat, p as nat);
}

/// An element whose `2^(a−1)`-th power is `−1` modulo `p > 2` has no
/// positive power below `2^a` equal to one: its order is `2^a`.
pub proof fn lemma_no_short_period(w: int, a: nat, m: nat, p: int)
    requires
        p > 2,
        a >= 1,
        pow(w, pow2((a - 1) as nat)) % p == p - 1,
        0 < m < pow2(a),
    ensures
        pow(w, m) % p != 1,
    decreases a,
{
    let h = pow2((a - 1) as nat);
    if m % 2 == 1 {
        if pow(w, m) % p == 1 {
            lemma_pow_one_power(w, m, h, p);
            lemma_pow_multiplies(w, h, m);
            lemma_mul_is_commutative(m as int, h as int);
            lemma_pow_mod_noop(pow(w, h), m, p);
            lemma_minus_one_odd(m, p);
        }
    } else {
        lemma_pow2_unfold(a);
        if a == 1 {
            assert(pow2(0) == 1) by {
                lemma2_to64();
            }
        } else {
            lemma_pow2_unfold((a - 1) as nat);
            let m2 = (m / 2) as nat;
            let w2 = pow(w, 2);
            lemma_pow_multiplies(w, 2, pow2((a - 2) as nat));
            assert(2 * pow2((a - 2) as nat) == h);
            lemma_no_short_period(w2, (a - 1) as nat, m2, p);
            lemma_pow_multiplies(w, 2, m2);
            assert(2 * m2 == m);
        }
    }
}

/// From `omega^(d/2) ≡ −1` for a power of two `d = 2^a`: `a ≥ 1`,
/// `omega^d ≡ 1`, and no positive power of `omega` below `d` is one.
proof fn lemma_omega_order(om: int, d: nat, p: int) -> (a: nat)
    requires
        p > 2,
        is_pow2(d as int),
        d >= 2,
        pow(om, d / 2) % p == p - 1,
    ensures
        pow2(a) == d,
        a >= 1,
        pow2((a - 1) as nat) == d / 2,
        pow(om, d) % p == 1,
        forall|m: nat| 0 < m < d ==> #[trigger] pow(om, m) % p != 1,
{
    is_pow2_equiv(d as int);
    let a = choose|i: nat| pow(2, i) == d;
    lemma_pow2(a);
    if a == 0 {
        lemma2_to64();
    }
    lemma_pow2_unfold(a);
    lemma_fundamental_div_mod(d as int, 2);
    assert(d == 2 * (d / 2));
    lemma_pow_multiplies(om, d / 2, 2);
    lemma_pow_mod_noop(pow(om, d / 2), 2, p);
    lemma_pow_adds(p - 1, 1, 1);
    lemma_pow1(p - 1);
    assert((p - 1) * (p - 1) == p * (p - 2) + 1) by (nonlinear_arith);
    lemma_mod_multiples_vanish(p - 2, 1, p);
    lemma_small_mod(1, p as nat);
    assert(pow(om, d) % p == 1);
    assert forall|m: nat| 0 < m < d implies #[trigger] pow(om, m) % p != 1 by {
        lemma_no_short_period(om, a, m, p);
    }
    a
}

/// The points of the coset reached after `k` foldings are distinct while
/// `2^k` times their number stays within the order of `omega`.
proof fn lemma_coset_distinct(off: int, om: int, k: nat, len: nat, d: nat, f: Field)
    requires
        is_prime(f.p as int),
        f.p > 2,
        off % (f.p as int) != 0,
        om % (f.p as int) != 0,
        pow2(k) * len <= d,
        forall|m: nat| 0 < m < d ==> #[trigger] pow(om, m) % (f.p as int) != 1,
    ensures
        crate::polynomial::distinct_points(crate::fri::coset_points(f, off, om, k, len)),
        forall|j: int| 0 <= j < len ==> (#[trigger] crate::fri::coset_points(f, off, om, k, len)[j]).value < f.p,
{
    let p = f.p as int;
    let pts = crate::fri::coset_points(f, off, om, k, len);
    assert forall|i: int, j: int| 0 <= i < len && 0 <= j < len && i != j implies pts[i].value != pts[j].value by {
        let lo = if i < j { i } else { j };
        let hi = if i < j { j } else { i };
        let gap = (hi - lo) as nat;
        let x = fold_point(off, om, k, lo);
        let w = pow(om, pow2(k) * gap);
        assert(fold_point(off, om, k, hi) == x * w) by {
            lemma_mul_is_distributive_add(pow2(k) as int, lo, gap as int);
            lemma_pow_adds(om, pow2(k) * (lo as nat), pow2(k) * gap);
            lemma_mul_is_associative(pow(off, pow2(k)), pow(om, pow2(k) * (lo as nat)), w);
        }
        if pts[i].value == pts[j].value {
            lemma_point_nonzero(off, om, k, lo, p);
            lemma_prime_unit(x, p);
            lemma_mod_bound(x, p);
            lemma_mod_bound(x * w, p);
            assert(x % p == (x * w) % p);
            assert(x * w - x == x * (w - 1)) by (nonlinear_arith);
            crate::polynomial::roots::lemma_sub_vanishes(x * w, x, p);
            crate::polynomial::roots::lemma_unit_cancel(x, w - 1, p);
            lemma_sub_mod_noop(w, 1, p);
            lemma_small_mod(1, p as nat);
            lemma_mod_bound(w, p);
            if w % p == 0 {
                lemma_mod_add_multiples_vanish(-1, p);
                lemma_small_mod((p - 1) as nat, p as nat);
            } else if w % p >= 2 {
                lemma_small_mod((w % p - 1) as nat, p as nat);
            }
            assert(w % p == 1);
            lemma_pow2_pos(k);
            assert(pow2(k) * gap < d) by (nonlinear_arith)
                requires
                    pow2(k) * len <= d,
                    0 < gap < len,
                    pow2(k) > 0,
            ;
            lemma_pow2_pos(k);
            assert(pow2(k) * gap > 0) by (nonlinear_arith)
                requires
                    pow2(k) > 0,
                    gap > 0,
            ;
            assert(pow(om, pow2(k) * gap) % p != 1);
        }
    }
    assert forall|j: int| 0 <= j < len implies (#[trigger] pts[j]).value < f.p by {
        lemma_mod_bound(fold_point(off, om, k, j), p);
    }
}

/// The inverse of the last coset's generator `lo = omega^(2^k)` is its
/// power by the coset's length less one, when `lo` to that length is one.
proof fn lemma_generator_inverse(lo: int, len: nat, f: Field)
    requires
        is_prime(f.p as int),
        0 < lo < f.p,
        len >= 1,
        pow(lo, len) % (f.p as int) == 1,
    ensures
        (spec_inverse((lo % (f.p as int)) as nat, f.p as nat) as int) % (f.p as int) == pow(lo, (len - 1) as nat)
            % (f.p as int),
{
    let p = f.p as int;
    lemma_small_mod(lo as nat, p as nat);
    lemma_inverse_times(lo, f);
    let iv = spec_inverse(lo as nat, p as nat) as int;
    let r = pow(lo, (len - 1) as nat);
    lemma_pow_adds(lo, 1, (len - 1) as nat);
    lemma_pow1(lo);
    assert(lo * r == pow(lo, len));
    // iv ≡ iv · (lo · r) = (iv · lo) · r ≡ r
    assert(iv * (lo * r) == (lo * iv) * r) by (nonlinear_arith);
    lemma_mul_mod_noop_right(iv, lo * r, p);
    lemma_mul_mod_noop_left(lo * iv, r, p);
    lemma_mul_basics(iv);
    lemma_mul_basics(r);
}

/// `2^k` times half a layer below the last round is half the domain.
proof fn lemma_half_exponent(fri: Fri, cws: Seq<Seq<FieldElement>>, k: nat)
    requires
        layers_ok(cws, fri.domain_length_spec(), fri.field_spec()),
        cws.len() == fri.rounds_spec(),
        k < fri.rounds_spec(),
        fri.expansion_spec() >= 1,
    ensures
        pow2(k) * (cws[k as int].len() / 2) == fri.domain_length_spec() / 2,
        cws[k as int].len() % 2 == 0,
{
    lemma_layer_facts(fri, cws, k);
    let c = cws[k as int];
    let d = fri.domain_length_spec();
    reveal(is_pow2);
    lemma_fundamental_div_mod(c.len() as int, 2);
    lemma_mul_is_associative(pow2(k) as int, (c.len() / 2) as int, 2);
    lemma_fundamental_div_mod(d as int, 2);
}

/// The layers of an honest commitment of a codeword holding the values of
/// `poly` on the coset hold the values of the folded polynomials.
proof fn lemma_layers_low_degree(
    fri: Fri,
    objs: Seq<FriProofItem>,
    base: int,
    prefix: Seq<u8>,
    codeword: Seq<FieldElement>,
    cws: Seq<Seq<FieldElement>>,
    poly: Seq<FieldElement>,
    k: nat,
)
    requires
        is_prime(fri.field_spec().p as int),
        fri.field_spec().p > 2,
        fri.expansion_spec() >= 1,
        fri.offset_spec().value as int % (fri.field_spec().p as int) != 0,
        fri.omega_spec().value as int % (fri.field_spec().p as int) != 0,
        pow(fri.omega_spec().value as int, fri.domain_length_spec() / 2) % (fri.field_spec().p as int)
            == fri.field_spec().p - 1,
        codeword.len() == fri.domain_length_spec(),
        commits_layers(
            objs,
            base,
            prefix,
            codeword,
            cws,
            fri.rounds_spec(),
            fri.field_spec(),
            fri.offset_spec().value as int,
            fri.omega_spec().value as int,
        ),
        k < fri.rounds_spec(),
        forall|i: int|
            0 <= i < codeword.len() ==> (#[trigger] codeword[i]).value == poly_eval(
                poly,
                fold_point(fri.offset_spec().value as int, fri.omega_spec().value as int, 0, i),
            ) % (fri.field_spec().p as int),
    ensures
        forall|i: int|
            0 <= i < cws[k as int].len() ==> (#[trigger] cws[k as int][i]).value == poly_eval(
                layer_poly(poly, objs, base, prefix, fri.field_spec(), k),
                fold_point(fri.offset_spec().value as int, fri.omega_spec().value as int, k, i),
            ) % (fri.field_spec().p as int),
    decreases k,
{
    let f = fri.field_spec();
    let p = f.p as int;
    let off = fri.offset_spec().value as int;
    let om = fri.omega_spec().value as int;
    if k > 0 {
        let j = (k - 1) as nat;
        lemma_layers_low_degree(fri, objs, base, prefix, codeword, cws, poly, j);
        reveal(transcript_ok);
        lemma_layer_facts(fri, cws, j);
        lemma_half_exponent(fri, cws, j);
        let c = cws[j as int];
        let alpha = fri_challenge(f, prefix, objs, base + j + 1);
        assert(folded(c, cws[k as int], alpha, off, om, j, p));
        assert forall|i: int| 0 <= i < c.len() implies #[trigger] fold_point(off, om, j, i) % p != 0 by {
            lemma_point_nonzero(off, om, j, i, p);
        }
        lemma_fold_layer(layer_poly(poly, objs, base, prefix, f, j), c, cws[k as int], alpha, off, om, j, f);
        assert(base + k == base + j + 1);
    }
}

/// Folding halves the number of coefficients.
proof fn lemma_layer_poly_len(
    poly: Seq<FieldElement>,
    objs: Seq<FriProofItem>,
    base: int,
    prefix: Seq<u8>,
    f: Field,
    k: nat,
    b: nat,
    top: nat,
)
    requires
        k <= top,
        poly.len() <= b * pow2(top),
    ensures
        layer_poly(poly, objs, base, prefix, f, k).len() <= b * pow2((top - k) as nat),
    decreases k,
{
    if k > 0 {
        lemma_layer_poly_len(poly, objs, base, prefix, f, (k - 1) as nat, b, top);
        lemma_pow2_unfold((top - k + 1) as nat);
        let prev = layer_poly(poly, objs, base, prefix, f, (k - 1) as nat).len();
        assert(b * pow2((top - k + 1) as nat) == 2 * (b * pow2((top - k) as nat))) by {
            lemma_mul_is_associative(b as int, 2, pow2((top - k) as nat) as int);
            lemma_mul_is_commutative(b as int, 2);
            lemma_mul_is_associative(2, b as int, pow2((top - k) as nat) as int);
        }
        assert((top - (k - 1)) as nat == (top - k + 1) as nat);
    }
}

/// A smaller power of two divides a larger one.
proof fn lemma_pow2_divides(e: nat, n: nat)
    requires
        is_pow2(e as int),
        is_pow2(n as int),
        e <= n,
    ensures
        n == e * (n / e),
        e > 0,
{
    is_pow2_equiv(e as int);
    is_pow2_equiv(n as int);
    let i = choose|i: nat| pow(2, i) == e;
    let j = choose|j: nat| pow(2, j) == n;
    lemma_pow2(i);
    lemma_pow2(j);
    if i > j {
        lemma_pow2_strictly_increases(j, i);
    }
    lemma_pow2_adds(i, (j - i) as nat);
    lemma_pow2_pos(i);
    lemma_div_multiples_vanish(pow2((j - i) as nat) as int, e as int);
    lemma_mul_is_commutative(e as int, pow2((j - i) as nat) as int);
}

/// The last-layer checks pass on an honest transcript of a codeword that
/// holds the values of a polynomial with at most `d / e` coefficients:
/// the roots and the last codeword are where the verifier reads them, the
/// last coset's points are distinct with the expected inverse generator,
/// and the interpolant of the last codeword has at most `len / e`
/// coefficients.
#[verifier::rlimit(100)]
#[verifier::spinoff_prover]
pub proof fn lemma_honest_last_layer(
    fri: Fri,
    objs: Seq<FriProofItem>,
    base: int,
    prefix: Seq<u8>,
    codeword: Seq<FieldElement>,
    cws: Seq<Seq<FieldElement>>,
    poly: Seq<FieldElement>,
)
    requires
        is_prime(fri.field_spec().p as int),
        fri.field_spec().p > 2,
        fri.expansion_spec() >= 1,
        fri.offset_spec().value as int % (fri.field_spec().p as int) != 0,
        fri.omega_spec().value as int % (fri.field_spec().p as int) != 0,
        pow(fri.omega_spec().value as int, fri.domain_length_spec() / 2) % (fri.field_spec().p as int)
            == fri.field_spec().p - 1,
        base >= 0,
        codeword.len() == fri.domain_length_spec(),
        commits_layers(
            objs,
            base,
            prefix,
            codeword,
            cws,
            fri.rounds_spec(),
            fri.field_spec(),
            fri.offset_spec().value as int,
            fri.omega_spec().value as int,
        ),
        objs.len() >= base + fri.rounds_spec() + 1,
        fri.rounds_spec() >= 1,
        forall|i: int|
            0 <= i < codeword.len() ==> (#[trigger] codeword[i]).value == poly_eval(
                poly,
                fold_point(fri.offset_spec().value as int, fri.omega_spec().value as int, 0, i),
            ) % (fri.field_spec().p as int),
        forall|i: int| 0 <= i < poly.len() ==> (#[trigger] poly[i]).value < fri.field_spec().p,
        is_pow2(fri.expansion_spec() as int),
        poly.len() * fri.expansion_spec() <= fri.domain_length_spec(),
        fri.domain_length_spec() / pow2((fri.rounds_spec() - 1) as nat) <= 0x3fff_ffff,
    ensures
        last_layer_checked(
            objs,
            base,
            fri.rounds_spec(),
            fri.field_spec(),
            fri.offset_spec().value as int,
            fri.omega_spec().value as int,
            fri.expansion_spec(),
        ),
{
    let f = fri.field_spec();
    let p = f.p as int;
    let r = fri.rounds_spec();
    let d = fri.domain_length_spec();
    let e = fri.expansion_spec();
    let off = fri.offset_spec().value as int;
    let om = fri.omega_spec().value as int;
    let k = (r - 1) as nat;
    reveal(transcript_ok);
    lemma_layer_facts(fri, cws, k);
    let last = cws[k as int];
    let len = last.len();
    assert(codeword_of(objs[base + r]) == last);
    assert forall|j: int| 0 <= j < r implies base + j < objs.len() && (#[trigger] objs[base + j]) is MerkleRoot by {
        assert(is_root_of(objs[base + j], cws[j]));
    }
    assert(is_root_of(objs[base + r - 1], last));
    lemma_fundamental_div_mod(len as int, e as int);
    // the last coset: its generator's order, its inverse, its distinct points
    lemma_layer_facts(fri, cws, 0);
    assert(cws[0] == codeword);
    lemma2_to64();
    assert(d / pow2(0) == d);
    let a = lemma_omega_order(om, d, p);
    let lo = pow(om, pow2(k)) % p;
    lemma_prime_unit(om, p);
    lemma_unit_pow(om, pow2(k), p);
    lemma_unit_nonzero(pow(om, pow2(k)), p);
    lemma_mod_bound(pow(om, pow2(k)), p);
    lemma_pow_mod_noop(pow(om, pow2(k)), len, p);
    lemma_pow_multiplies(om, pow2(k), len);
    lemma_generator_inverse(lo, len, f);
    lemma_coset_distinct(off, om, k, len, d, f);
    let domain = coset_points(f, off, om, k, len);
    // the interpolant takes the codeword's values
    assert(crate::polynomial::points_in_field(domain, f)) by {
        assert forall|j: int| 0 <= j < domain.len() implies (#[trigger] domain[j]).field == f && domain[j].wf() by {
            lemma_mod_bound(fold_point(off, om, k, j), p);
        }
    }
    lemma_prime_differences_invertible(domain, p);
    lemma_lagrange_sum(domain, last, len, f);
    let q = lagrange_sum(domain, last, len);
    // the last layer holds the values of the folded polynomial
    lemma_layers_low_degree(fri, objs, base, prefix, codeword, cws, poly, k);
    let big_q = layer_poly(poly, objs, base, prefix, f, k);
    lemma_pow2_divides(e, len);
    let b = len / e;
    assert(d == pow2(k) * len);
    assert(poly.len() <= b * pow2(k)) by {
        if poly.len() > b * pow2(k) {
            lemma_mul_strict_inequality((b * pow2(k)) as int, poly.len() as int, e as int);
            lemma_mul_is_commutative(b as int, pow2(k) as int);
            lemma_mul_is_associative(pow2(k) as int, b as int, e as int);
            lemma_mul_is_commutative(b as int, e as int);
            lemma_mul_is_commutative(poly.len() as int, e as int);
            lemma_mul_is_commutative((b * pow2(k)) as int, e as int);
        }
    }
    lemma_layer_poly_len(poly, objs, base, prefix, f, k, b, k);
    assert(pow2(0) == 1);
    lemma_mul_basics(b as int);
    assert(b * pow2(0) == b);
    assert(big_q.len() <= b);
    assert(b <= len) by {
        lemma_mul_inequality(1, e as int, b as int);
        lemma_mul_is_commutative(e as int, b as int);
    }
    assert forall|u: int| 0 <= u < big_q.len() implies (#[trigger] big_q[u]).value < p by {
        if k > 0 {
            let prev = layer_poly(poly, objs, base, prefix, f, (k - 1) as nat);
            let al = fri_challenge(f, prefix, objs, base + k);
            assert(big_q == fold_poly(prev, al, f));
            lemma_mod_bound(coeff(prev, 2 * u) + al.value * coeff(prev, 2 * u + 1), p);
        }
    }
    let xs = Seq::new(len, |j: int| domain[j].value as int);
    assert forall|j: int| 0 <= j < xs.len() implies #[trigger] poly_eval(q, xs[j]) % p == poly_eval(big_q, xs[j]) % p by {
        let x = fold_point(off, om, k, j);
        lemma_eval_horner(big_q, x, big_q.len());
        lemma_eval_horner(big_q, xs[j], big_q.len());
        lemma_mod_twice(x, p);
        lemma_horner_congruent_point(Seq::new(big_q.len(), |i: int| coeff(big_q, i)), xs[j], x, p);
        assert(last[j].value == poly_eval(big_q, x) % p);
    }
    assert forall|i: int, j: int|
        #![trigger xs[i], xs[j]]
        0 <= i < xs.len() && 0 <= j < xs.len() && i != j implies (xs[i] - xs[j]) % p != 0 by {
        lemma_diff_nonzero(xs[i], xs[j], p);
    }
    lemma_interpolation_unique(q, big_q, xs, p);
    if q.len() > b {
        assert(coeff(q, q.len() - 1) == coeff(big_q, q.len() - 1));
    }
    assert forall|j: int| 0 <= j < len implies (#[trigger] f.element_of(poly_eval(q, domain[j].value as int))).value
        == last[j].value by {
        assert(last[j].wf());
    }
    assert(len / e != 0) by {
        if b == 0 {
            lemma_mul_basics(e as int);
        }
    }
}

/// The challenge of round `rd` is neither of the two domain points that
/// sample `s` tests it against.
pub open spec fn challenge_avoids(
    fri: Fri,
    objs: Seq<FriProofItem>,
    base: int,
    prefix: Seq<u8>,
    top: Seq<usize>,
    rd: int,
    s: int,
) -> bool {
    let f = fri.field_spec();
    let off = fri.offset_spec().value as int;
    let om = fri.omega_spec().value as int;
    let half = (fri.domain_length_spec() / pow2((rd + 1) as nat)) as int;
    let a = (top[s] as int) % half;
    let alpha = fri_challenge(f, prefix, objs, base + rd + 1);
    &&& alpha.value != f.element_of(fold_point(off, om, rd as nat, a)).value
    &&& alpha.value != f.element_of(fold_point(off, om, rd as nat, a + half)).value
}

/// Completeness of FRI.  Take a transcript as the prover writes it from
/// `base` on — the layers' commitments, then, with more than one round,
/// the openings at the top-level indices `top` that the verifier samples —
/// for a codeword that holds, on the coset `offset · <omega>`, the values
/// of a polynomial with at most `d / e` coefficients, in a prime field
/// where `omega^(d/2) = −1` (so `omega` has order `d`).  Then the
/// verifier's checks all pass, provided the outcomes of hashing do not
/// defeat it: the sampling yields as many indices as tests, and no
/// folding challenge equals a domain point it is tested against.  The
/// verifier's own limits also apply: the last layer has fewer than `2^30`
/// elements, and `e` is a power of two.
pub proof fn lemma_fri_complete(
    fri: Fri,
    objs: Seq<FriProofItem>,
    base: int,
    prefix: Seq<u8>,
    codeword: Seq<FieldElement>,
    cws: Seq<Seq<FieldElement>>,
    top: Seq<usize>,
    poly: Seq<FieldElement>,
)
    requires
        is_prime(fri.field_spec().p as int),
        fri.field_spec().p > 2,
        fri.offset_spec().value as int % (fri.field_spec().p as int) != 0,
        fri.omega_spec().value as int % (fri.field_spec().p as int) != 0,
        pow(fri.omega_spec().value as int, fri.domain_length_spec() / 2) % (fri.field_spec().p as int)
            == fri.field_spec().p - 1,
        base >= 0,
        codeword.len() == fri.domain_length_spec(),
        fri.rounds_spec() >= 1,
        commits_layers(
            objs,
            base,
            prefix,
            codeword,
            cws,
            fri.rounds_spec(),
            fri.field_spec(),
            fri.offset_spec().value as int,
            fri.omega_spec().value as int,
        ),
        objs.len() >= base + fri.rounds_spec() + 1,
        fri.rounds_spec() > 1 ==> {
            &&& queries_written(objs, base, cws, top, fri.rounds_spec(), fri.tests_spec())
            &&& objs.len() == base + fri.rounds_spec() + 1 + (fri.rounds_spec() - 1) * (4 * fri.tests_spec())
            &&& top == verifier_top(objs, base, prefix, fri.rounds_spec(), fri.tests_spec(), fri.domain_length_spec())
            &&& top.len() == fri.tests_spec()
            &&& forall|rd: int, s: int|
                0 <= rd < fri.rounds_spec() - 1 && 0 <= s < fri.tests_spec() ==> #[trigger] challenge_avoids(
                    fri,
                    objs,
                    base,
                    prefix,
                    top,
                    rd,
                    s,
                )
        },
        forall|i: int|
            0 <= i < codeword.len() ==> (#[trigger] codeword[i]).value == poly_eval(
                poly,
                fold_point(fri.offset_spec().value as int, fri.omega_spec().value as int, 0, i),
            ) % (fri.field_spec().p as int),
        forall|i: int| 0 <= i < poly.len() ==> (#[trigger] poly[i]).value < fri.field_spec().p,
        is_pow2(fri.expansion_spec() as int),
        poly.len() * fri.expansion_spec() <= fri.domain_length_spec(),
        fri.domain_length_spec() / pow2((fri.rounds_spec() - 1) as nat) <= 0x3fff_ffff,
    ensures
        fri.checks_pass(objs, base, prefix),
{
    reveal(is_pow2);
    lemma_honest_last_layer(fri, objs, base, prefix, codeword, cws, poly);
    if fri.rounds_spec() > 1 {
        assert forall|rd: int, s: int|
            0 <= rd < fri.rounds_spec() - 1 && 0 <= s < fri.tests_spec() implies #[trigger] sample_checked(
                objs,
                base,
                prefix,
                fri.rounds_spec(),
                fri.tests_spec(),
                fri.domain_length_spec(),
                fri.field_spec(),
                fri.offset_spec().value as int,
                fri.omega_spec().value as int,
                top,
                rd,
                s,
            ) by {
            assert(challenge_avoids(fri, objs, base, prefix, top, rd, s));
            lemma_honest_sample(fri, objs, base, prefix, codeword, cws, top, rd, s);
        }
    }
}

/// Equal encodings of byte strings are encodings of equal byte strings.
proof fn lemma_blob_injective(a: Seq<u8>, b: Seq<u8>)
    requires
        blob_encoding(a) == blob_encoding(b),
    ensures
        a == b,
{
    lemma_auto_spec_u64_to_from_le_bytes();
    let ea = blob_encoding(a);
    assert(ea.subrange(0, 8) =~= spec_u64_to_le_bytes(a.len() as u64));
    assert(blob_encoding(b).subrange(0, 8) =~= spec_u64_to_le_bytes(b.len() as u64));
    assert(a.len() == b.len());
    assert(ea.subrange(8, ea.len() as int) =~= a);
    assert(blob_encoding(b).subrange(8, ea.len() as int) =~= b);
}

/// Equal encodings of field elements are encodings of equal elements.
proof fn lemma_element_injective(a: FieldElement, b: FieldElement)
    requires
        element_encoding(a) == element_encoding(b),
    ensures
        a == b,
{
    lemma_auto_spec_u128_to_from_le_bytes();
    let ea = element_encoding(a);
    let eb = element_encoding(b);
    assert(ea.subrange(0, 16) =~= spec_u128_to_le_bytes(a.value));
    assert(eb.subrange(0, 16) =~= spec_u128_to_le_bytes(b.value));
    assert(ea.subrange(16, 32) =~= spec_u128_to_le_bytes(a.field.p));
    assert(eb.subrange(16, 32) =~= spec_u128_to_le_bytes(b.field.p));
}

/// Lists with equal encodings whose element encodings are injective hold
/// the same elements, in the sense of `same`.
proof fn lemma_list_elements(a: Seq<FieldElement>, b: Seq<FieldElement>)
    requires
        list_encoding(a) == list_encoding(b),
        list_encoding(b).len() <= usize::MAX,
    ensures
        a == b,
{
    let s = list_encoding(b);
    assert(fits_at(list_encoding(a), s, 0)) by {
        assert(s.subrange(0, s.len() as int) =~= s);
    }
    lemma_decoded_list_agrees(b, a, 0);
    assert forall|i: int| 0 <= i < a.len() implies a[i] == b[i] by {
        lemma_element_injective(a[i], b[i]);
    }
    assert(a =~= b);
}

/// Lists of byte strings with equal encodings hold the same byte strings.
proof fn lemma_list_blobs(a: Seq<Vec<u8>>, b: Seq<Vec<u8>>)
    requires
        list_encoding(a) == list_encoding(b),
        list_encoding(b).len() <= usize::MAX,
    ensures
        byte_views(a) == byte_views(b),
{
    let s = list_encoding(b);
    assert(fits_at(list_encoding(a), s, 0)) by {
        assert(s.subrange(0, s.len() as int) =~= s);
    }
    lemma_decoded_list_agrees(b, a, 0);
    assert forall|i: int| 0 <= i < a.len() implies byte_views(a)[i] == byte_views(b)[i] by {
        lemma_blob_injective(a[i]@, b[i]@);
    }
    assert(byte_views(a) =~= byte_views(b));
}

/// Two FRI transcript objects carry the same content: the same kind, and
/// the same root, codeword, values or path.
pub open spec fn same_fri_item(a: FriProofItem, b: FriProofItem) -> bool {
    match (a, b) {
        (FriProofItem::MerkleRoot(x), FriProofItem::MerkleRoot(y)) => x@ == y@,
        (FriProofItem::LastCodeword(x), FriProofItem::LastCodeword(y)) => x@ == y@,
        (FriProofItem::QueryValues(x0, x1, x2), FriProofItem::QueryValues(y0, y1, y2)) => x0 == y0 && x1 == y1 && x2
            == y2,
        (FriProofItem::AuthenticationPath(x), FriProofItem::AuthenticationPath(y)) => byte_views(x@) == byte_views(y@),
        _ => false,
    }
}

/// Equal encodings of FRI objects are encodings of objects with the same
/// content.
proof fn lemma_fri_item_injective(a: FriProofItem, b: FriProofItem)
    requires
        a.encoding() == b.encoding(),
        b.encoding().len() <= usize::MAX,
    ensures
        same_fri_item(a, b),
{
    let s = b.encoding();
    assert(fits_at(a.encoding(), s, 0) && fits_at(b.encoding(), s, 0)) by {
        assert(s.subrange(0, s.len() as int) =~= s);
    }
    crate::crypto::encoding::lemma_tags_agree(fri_item_tag(a), fri_item_tag(b), fri_item_body(a), fri_item_body(b), s, 0);
    let t = fri_item_tag(a);
    let ba = fri_item_body(a);
    let bb = fri_item_body(b);
    lemma_auto_spec_u32_to_from_le_bytes();
    assert(a.encoding() == spec_u32_to_le_bytes(t) + ba);
    assert(b.encoding() == spec_u32_to_le_bytes(t) + bb);
    assert(ba == bb) by {
        assert(a.encoding().subrange(4, a.encoding().len() as int) =~= ba);
        assert(b.encoding().subrange(4, b.encoding().len() as int) =~= bb);
    }
    match (a, b) {
        (FriProofItem::MerkleRoot(x), FriProofItem::MerkleRoot(y)) => {
            lemma_blob_injective(x@, y@);
        },
        (FriProofItem::LastCodeword(x), FriProofItem::LastCodeword(y)) => {
            lemma_list_elements(x@, y@);
        },
        (FriProofItem::QueryValues(x0, x1, x2), FriProofItem::QueryValues(y0, y1, y2)) => {
            lemma_auto_spec_u128_to_from_le_bytes();
            assert(ba.subrange(0, 32) =~= x0.encoding());
            assert(bb.subrange(0, 32) =~= y0.encoding());
            assert(ba.subrange(32, 64) =~= x1.encoding());
            assert(bb.subrange(32, 64) =~= y1.encoding());
            assert(ba.subrange(64, 96) =~= x2.encoding());
            assert(bb.subrange(64, 96) =~= y2.encoding());
            lemma_element_injective(x0, y0);
            lemma_element_injective(x1, y1);
            lemma_element_injective(x2, y2);
        },
        (FriProofItem::AuthenticationPath(x), FriProofItem::AuthenticationPath(y)) => {
            lemma_list_blobs(x@, y@);
        },
        _ => {},
    }
}

/// Each element's encoding is no longer than the concatenation.
proof fn lemma_element_encoding_len(s: Seq<FriProofItem>, i: int)
    requires
        0 <= i < s.len(),
    ensures
        s[i].encoding().len() <= concat_encodings(s).len(),
    decreases s.len(),
{
    if i < s.len() - 1 {
        lemma_element_encoding_len(s.drop_last(), i);
    }
}

/// A commitment read from a transcript with the same objects and the same
/// challenges is the same commitment.
proof fn lemma_commits_transfer(
    written: Seq<FriProofItem>,
    decoded: Seq<FriProofItem>,
    prefix: Seq<u8>,
    codeword: Seq<FieldElement>,
    cws: Seq<Seq<FieldElement>>,
    r: nat,
    f: Field,
    off: int,
    om: int,
)
    requires
        decoded.len() == written.len(),
        written.len() >= r + 1,
        forall|i: int| 0 <= i < written.len() ==> #[trigger] same_fri_item(decoded[i], written[i]),
        forall|k: int| 0 <= k <= written.len() ==> #[trigger] challenge_input(prefix, decoded, k) == challenge_input(prefix, written, k),
        commits_layers(written, 0, prefix, codeword, cws, r, f, off, om),
    ensures
        commits_layers(decoded, 0, prefix, codeword, cws, r, f, off, om),
{
    reveal(transcript_ok);
    assert forall|k: int| 0 <= k < r implies is_root_of(decoded[0 + k], #[trigger] cws[k]) by {
        assert(is_root_of(written[0 + k], cws[k]));
        assert(same_fri_item(decoded[k], written[k]));
    }
    assert forall|k: int| 0 <= k < r && k + 1 < cws.len() implies folded(
        #[trigger] cws[k],
        cws[k + 1],
        fri_challenge(f, prefix, decoded, 0 + k + 1),
        off,
        om,
        k as nat,
        f.p as int,
    ) by {
        assert(challenge_input(prefix, decoded, 0 + k + 1) == challenge_input(prefix, written, 0 + k + 1));
    }
    assert(same_fri_item(decoded[0 + r as int], written[0 + r as int]));
}

/// Openings read from a transcript with the same objects are the same
/// openings.
proof fn lemma_queries_transfer(
    written: Seq<FriProofItem>,
    decoded: Seq<FriProofItem>,
    cws: Seq<Seq<FieldElement>>,
    top: Seq<usize>,
    r: nat,
    t: nat,
)
    requires
        decoded.len() == written.len(),
        r > 1,
        written.len() == r + 1 + (r - 1) * (4 * t),
        forall|i: int| 0 <= i < written.len() ==> #[trigger] same_fri_item(decoded[i], written[i]),
        queries_written(written, 0, cws, top, r, t),
    ensures
        queries_written(decoded, 0, cws, top, r, t),
{
    assert forall|rd: int, s: int| 0 <= rd < r - 1 && 0 <= s < t implies #[trigger] query_written(
        decoded,
        round_start(0, r, t, rd) + s,
        round_start(0, r, t, rd) + t + 3 * s,
        round_indices(top, cws, rd as nat)[s] as int,
        cws[rd],
        cws[rd + 1],
    ) by {
        let qv = round_start(0, r, t, rd) + s;
        let pp = round_start(0, r, t, rd) + t + 3 * s;
        assert(query_written(
            written,
            qv,
            pp,
            round_indices(top, cws, rd as nat)[s] as int,
            cws[rd],
            cws[rd + 1],
        ));
        assert(rd * (4 * t) + 4 * t <= (r - 1) * (4 * t)) by (nonlinear_arith)
            requires
                rd + 1 <= r - 1,
                t >= 0,
        ;
        assert(same_fri_item(decoded[qv], written[qv]));
        assert(same_fri_item(decoded[pp], written[pp]));
        assert(same_fri_item(decoded[pp + 1], written[pp + 1]));
        assert(same_fri_item(decoded[pp + 2], written[pp + 2]));
    }
}

/// Completeness on what the verifier reads back: under the conditions of
/// [`lemma_fri_complete`] for the transcript `written` the prover wrote,
/// every transcript whose encoding starts the bytes of `written` — as a
/// transcript decoded from them does — passes the verifier's checks.
pub proof fn lemma_fri_complete_decoded(
    fri: Fri,
    written: Seq<FriProofItem>,
    decoded: Seq<FriProofItem>,
    prefix: Seq<u8>,
    codeword: Seq<FieldElement>,
    cws: Seq<Seq<FieldElement>>,
    top: Seq<usize>,
    poly: Seq<FieldElement>,
)
    requires
        list_encoding(written).len() <= usize::MAX,
        fits_at(list_encoding(decoded), list_encoding(written), 0),
        is_prime(fri.field_spec().p as int),
        fri.field_spec().p > 2,
        fri.offset_spec().value as int % (fri.field_spec().p as int) != 0,
        fri.omega_spec().value as int % (fri.field_spec().p as int) != 0,
        pow(fri.omega_spec().value as int, fri.domain_length_spec() / 2) % (fri.field_spec().p as int)
            == fri.field_spec().p - 1,
        codeword.len() == fri.domain_length_spec(),
        fri.rounds_spec() >= 1,
        commits_layers(
            written,
            0,
            prefix,
            codeword,
            cws,
            fri.rounds_spec(),
            fri.field_spec(),
            fri.offset_spec().value as int,
            fri.omega_spec().value as int,
        ),
        written.len() >= fri.rounds_spec() + 1,
        fri.rounds_spec() > 1 ==> {
            &&& queries_written(written, 0, cws, top, fri.rounds_spec(), fri.tests_spec())
            &&& written.len() == fri.rounds_spec() + 1 + (fri.rounds_spec() - 1) * (4 * fri.tests_spec())
            &&& top == verifier_top(written, 0, prefix, fri.rounds_spec(), fri.tests_spec(), fri.domain_length_spec())
            &&& top.len() == fri.tests_spec()
            &&& forall|rd: int, s: int|
                0 <= rd < fri.rounds_spec() - 1 && 0 <= s < fri.tests_spec() ==> #[trigger] challenge_avoids(
                    fri,
                    written,
                    0,
                    prefix,
                    top,
                    rd,
                    s,
                )
        },
        forall|i: int|
            0 <= i < codeword.len() ==> (#[trigger] codeword[i]).value == poly_eval(
                poly,
                fold_point(fri.offset_spec().value as int, fri.omega_spec().value as int, 0, i),
            ) % (fri.field_spec().p as int),
        forall|i: int| 0 <= i < poly.len() ==> (#[trigger] poly[i]).value < fri.field_spec().p,
        is_pow2(fri.expansion_spec() as int),
        poly.len() * fri.expansion_spec() <= fri.domain_length_spec(),
        fri.domain_length_spec() / pow2((fri.rounds_spec() - 1) as nat) <= 0x3fff_ffff,
    ensures
        fri.checks_pass(decoded, 0, prefix),
{
    let r = fri.rounds_spec();
    let t = fri.tests_spec();
    let f = fri.field_spec();
    let off = fri.offset_spec().value as int;
    let om = fri.omega_spec().value as int;
    lemma_decoded_list_agrees(written, decoded, 0);
    assert forall|i: int| 0 <= i < written.len() implies #[trigger] same_fri_item(decoded[i], written[i]) by {
        lemma_element_encoding_len(written, i);
        lemma_auto_spec_u64_to_from_le_bytes();
        lemma_fri_item_injective(decoded[i], written[i]);
    }
    assert forall|k: int| 0 <= k <= written.len() implies #[trigger] challenge_input(prefix, decoded, k)
        == challenge_input(prefix, written, k) by {
        lemma_decoded_challenges_agree(written, decoded, prefix, k);
    }
    lemma_commits_transfer(written, decoded, prefix, codeword, cws, r, f, off, om);
    if r > 1 {
        lemma_queries_transfer(written, decoded, cws, top, r, t);
        assert(challenge_input(prefix, decoded, (r + 1) as int) == challenge_input(prefix, written, (r + 1) as int));
        assert(top == verifier_top(decoded, 0, prefix, r, t, fri.domain_length_spec()));
        assert forall|rd: int, s: int| 0 <= rd < r - 1 && 0 <= s < t implies #[trigger] challenge_avoids(
            fri,
            decoded,
            0,
            prefix,
            top,
            rd,
            s,
        ) by {
            assert(challenge_avoids(fri, written, 0, prefix, top, rd, s));
            assert(challenge_input(prefix, decoded, 0 + rd + 1) == challenge_input(prefix, written, 0 + rd + 1));
        }
    }
    lemma_fri_complete(fri, decoded, 0, prefix, codeword, cws, top, poly);
}

} // verus!
