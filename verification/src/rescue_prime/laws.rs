//! What the Rescue-Prime transition constraints take on the hash's trace.

use vstd::prelude::*;
use vstd::arithmetic::div_mod::*;
use vstd::arithmetic::power::*;

use crate::field::{FieldElement, MAIN_PRIME};
use crate::polynomial::multivariate::{mp_eval, MPolynomial};
use crate::polynomial::multivariate_eval::{lemma_add_congruent2, lemma_mul_congruent, lemma_pow_congruent};
use crate::polynomial::{differences_invertible, distinct_points, poly_eval};
use crate::rescue_prime::air::{backward_upto, column_constants, forward_upto, lemma_sub_congruent, round_curve};
use crate::rescue_prime::{add_constants, mat_apply, sbox, RescuePrime, ALPHA_INV};
use crate::stark::prover::powers;

verus! {

impl RescuePrime {
    /// The state after the first half-round of round `r`: S-box, MDS
    /// matrix, then the round's first constants.
    pub open spec fn first_half(&self, s: Seq<FieldElement>, r: int) -> Seq<FieldElement> {
        add_constants(mat_apply(self.mds_spec(), sbox(s, 3), self.field_spec()), self.constants_spec(), 4 * r)
    }

    /// The inverse matrix undoes the MDS matrix modulo the field's
    /// modulus: `MDS⁻¹ · MDS` is the identity.
    pub open spec fn mds_inverse_holds(&self) -> bool {
        let p = self.field_spec().p as int;
        let mds = self.mds_spec();
        let inv = self.mds_inv_spec();
        forall|i: int, k: int|
            #![trigger inv[i][0], mds[0][k]]
            0 <= i < 2 && 0 <= k < 2 ==> (inv[i][0].value * mds[0][k].value + inv[i][1].value * mds[1][k].value)
                % p == (if i == k {
                1int
            } else {
                0int
            })
    }

    /// The point at which the transition constraints are read at cycle
    /// `c` of the trace of hashing `input`: `omicron^c`, the state after
    /// `c` rounds and the state after `c + 1` rounds.
    pub open spec fn trace_point(&self, omicron: FieldElement, input: FieldElement, c: nat) -> Seq<int> {
        let s = self.state_after(input, c);
        let t = self.state_after(input, c + 1);
        seq![powers(omicron, 27)[c as int].value as int, s[0].value as int, s[1].value as int, t[0].value as int, t[1].value as int]
    }
}

/// Regrouping the inverse mix of the MDS image by the columns of `b`.
proof fn lemma_mix_identity(u0: int, u1: int, n00: int, n01: int, n10: int, n11: int, b0: int, b1: int)
    ensures
        u0 * (n00 * b0 + n01 * b1) + u1 * (n10 * b0 + n11 * b1) == (u0 * n00 + u1 * n10) * b0 + (u0 * n01 + u1 * n11) * b1,
{
    vstd::arithmetic::mul::lemma_mul_is_distributive_add(u0, n00 * b0, n01 * b1);
    vstd::arithmetic::mul::lemma_mul_is_distributive_add(u1, n10 * b0, n11 * b1);
    vstd::arithmetic::mul::lemma_mul_is_associative(u0, n00, b0);
    vstd::arithmetic::mul::lemma_mul_is_associative(u0, n01, b1);
    vstd::arithmetic::mul::lemma_mul_is_associative(u1, n10, b0);
    vstd::arithmetic::mul::lemma_mul_is_associative(u1, n11, b1);
    vstd::arithmetic::mul::lemma_mul_is_distributive_add_other_way(b0, u0 * n00, u1 * n10);
    vstd::arithmetic::mul::lemma_mul_is_distributive_add_other_way(b1, u0 * n01, u1 * n11);
}

/// At every cycle of the trace of hashing an input, each transition
/// constraint takes, modulo the field's modulus, the entry of the state
/// after the round's first half-round less the cube of that entry's
/// inverse S-box power (where the MDS inverse is the matrix's inverse and
/// the differences of the first 27 powers of `omicron` are units).
/// [`lemma_trace_satisfies_air`] goes on to show that this is zero.
#[verifier::rlimit(60)]
#[verifier::spinoff_prover]
pub proof fn lemma_trace_constraint_values(
    rp: RescuePrime,
    cs: Seq<MPolynomial>,
    omicron: FieldElement,
    input: FieldElement,
    c: nat,
)
    requires
        rp.inv(),
        rp.is_rescue_air(cs, omicron),
        input.field == rp.field_spec(),
        omicron.field == rp.field_spec(),
        differences_invertible(powers(omicron, 27), MAIN_PRIME as nat),
        c < 27,
    ensures
        forall|i: int|
            0 <= i < 2 ==> #[trigger] mp_eval(cs[i]@, rp.trace_point(omicron, input, c)) % (MAIN_PRIME as int) == (
            rp.first_half(rp.state_after(input, c), c as int)[i].value - pow(
                pow(rp.first_half(rp.state_after(input, c), c as int)[i].value as int, ALPHA_INV as nat),
                3,
            )) % (MAIN_PRIME as int),
{
    rp.lemma_inv();
    let p = MAIN_PRIME as int;
    let f = rp.field_spec();
    let mds = rp.mds_spec();
    let inv = rp.mds_inv_spec();
    let rc = rp.constants_spec();
    let x = rp.trace_point(omicron, input, c);
    let s = rp.state_after(input, c);
    let a = rp.first_half(s, c as int);
    let b = sbox(a, ALPHA_INV as nat);
    let t = rp.state_after(input, c + 1);
    assert(s[0].field == f && s[1].field == f) by {
        if c > 0 {
            let prev = rp.state_after(input, (c - 1) as nat);
            assert(s == rp.round_spec(prev, c - 1));
        }
    }
    assert(t == rp.round_spec(s, c as int));
    assert(t == add_constants(mat_apply(mds, b, f), rc, 4 * c + 2int));
    let (first, second, q1, q2) = choose|
        first: Seq<MPolynomial>,
        second: Seq<MPolynomial>,
        q1: Seq<Seq<FieldElement>>,
        q2: Seq<Seq<FieldElement>>,
    |
        #![trigger rp.round_curves(first, second, q1, q2, omicron)]
        rp.round_curves(first, second, q1, q2, omicron) && forall|i: int, x: Seq<int>|
            0 <= i < 2 ==> #[trigger] mp_eval(cs[i]@, x) % (rp.field_spec().p as int) == rp.air_value(
                i,
                x,
                Seq::new(2, |c: int| poly_eval(q1[c], x[0])),
                Seq::new(2, |c: int| poly_eval(q2[c], x[0])),
            ) % (rp.field_spec().p as int);
    assert(rp.round_curves(first, second, q1, q2, omicron));
    assert(round_curve(first[0], q1[0], omicron, column_constants(rc, 0, 0)));
    assert(round_curve(second[0], q2[0], omicron, column_constants(rc, 0, 1)));
    assert(round_curve(first[1], q1[1], omicron, column_constants(rc, 1, 0)));
    assert(round_curve(second[1], q2[1], omicron, column_constants(rc, 1, 1)));
    let c1 = Seq::new(2, |k: int| poly_eval(q1[k], x[0]));
    let c2 = Seq::new(2, |k: int| poly_eval(q2[k], x[0]));
    assert(x[0] == powers(omicron, 27)[c as int].value as int);
    // the round constants read from the curves
    assert forall|k: int| 0 <= k < 2 implies #[trigger] c1[k] % p == rc[4 * c + k].value && c2[k] % p == rc[4 * c + 2
        + k].value by {
        assert(column_constants(rc, k, 0)[c as int] == rc[4 * c + k]);
        assert(column_constants(rc, k, 1)[c as int] == rc[4 * c + 2 + k]);
    }
    // the next state less the second constants is the MDS image of `b`
    assert forall|j: int|
        #![trigger c2[j]]
        0 <= j < 2 implies (x[3 + j] - c2[j]) % p == (mds[j][0].value * b[0].value + mds[j][1].value * b[1].value) % p by {
        let d = mds[j][0].value * b[0].value + mds[j][1].value * b[1].value;
        assert(crate::rescue_prime::dot(mds[j], b, 2) == d) by {
            assert(crate::rescue_prime::dot(mds[j], b, 0) == 0);
            assert(crate::rescue_prime::dot(mds[j], b, 1) == mds[j][0].value * b[0].value);
        }
        assert(x[3 + j] == t[j].value);
        assert(t[j].value == ((d % p) + rc[4 * c + 2 + j].value) % p);
        lemma_add_mod_noop(d, rc[4 * c + 2 + j].value as int, p);
        lemma_mod_twice(d, p);
        lemma_small_mod(rc[4 * c + 2 + j].value as nat, p as nat);
        assert(c1[j] % p == rc[4 * c + j].value && c2[j] % p == rc[4 * c + 2 + j].value);
        lemma_sub_congruent(x[3 + j], d + rc[4 * c + 2 + j].value, c2[j], rc[4 * c + 2 + j].value as int, p);
    }
    assert forall|i: int|
        0 <= i < 2 implies #[trigger] mp_eval(cs[i]@, x) % p == (a[i].value - pow(pow(a[i].value as int, ALPHA_INV as nat), 3))
        % p by {
        // the first half-round
        let fw = forward_upto(mds[i], x, 2);
        assert(fw == mds[i][0].value * pow(x[1], 3) + mds[i][1].value * pow(x[2], 3)) by {
            assert(forward_upto(mds[i], x, 0) == 0);
            assert(forward_upto(mds[i], x, 1) == mds[i][0].value * pow(x[1], 3));
        }
        let sb = sbox(s, 3);
        let dsum = mds[i][0].value * sb[0].value + mds[i][1].value * sb[1].value;
        assert(crate::rescue_prime::dot(mds[i], sb, 2) == dsum) by {
            assert(crate::rescue_prime::dot(mds[i], sb, 0) == 0);
            assert(crate::rescue_prime::dot(mds[i], sb, 1) == mds[i][0].value * sb[0].value);
        }
        assert(sb[0].value == pow(s[0].value as int, 3) % p);
        assert(sb[1].value == pow(s[1].value as int, 3) % p);
        lemma_mod_twice(pow(s[0].value as int, 3), p);
        lemma_mod_twice(pow(s[1].value as int, 3), p);
        lemma_mul_congruent(mds[i][0].value as int, sb[0].value as int, mds[i][0].value as int, pow(x[1], 3), p);
        lemma_mul_congruent(mds[i][1].value as int, sb[1].value as int, mds[i][1].value as int, pow(x[2], 3), p);
        lemma_add_congruent2(
            mds[i][0].value * sb[0].value,
            mds[i][0].value * pow(x[1], 3),
            mds[i][1].value * sb[1].value,
            mds[i][1].value * pow(x[2], 3),
            p,
        );
        assert(a[i].value == ((dsum % p) + rc[4 * c + i].value) % p);
        lemma_add_mod_noop(dsum, rc[4 * c + i].value as int, p);
        lemma_mod_twice(dsum, p);
        lemma_add_congruent2(dsum, fw, rc[4 * c + i].value as int, c1[i], p);
        lemma_small_mod(rc[4 * c + i].value as nat, p as nat);
        assert((a[i].value as int) % p == (fw + c1[i]) % p) by {
            lemma_small_mod(a[i].value as nat, p as nat);
        }
        // the inverse mix undoes the MDS matrix
        let bw = backward_upto(inv[i], x, c2, 2);
        assert(bw == inv[i][0].value * (x[3] - c2[0]) + inv[i][1].value * (x[4] - c2[1])) by {
            assert(backward_upto(inv[i], x, c2, 0) == 0);
            assert(backward_upto(inv[i], x, c2, 1) == inv[i][0].value * (x[3] - c2[0]));
        }
        let m0 = mds[0][0].value * b[0].value + mds[0][1].value * b[1].value;
        let m1 = mds[1][0].value * b[0].value + mds[1][1].value * b[1].value;
        assert((x[3] - c2[0]) % p == m0 % p);
        assert((x[4] - c2[1]) % p == m1 % p);
        lemma_mul_congruent(inv[i][0].value as int, x[3] - c2[0], inv[i][0].value as int, m0, p);
        lemma_mul_congruent(inv[i][1].value as int, x[4] - c2[1], inv[i][1].value as int, m1, p);
        lemma_add_congruent2(inv[i][0].value * (x[3] - c2[0]), inv[i][0].value * m0, inv[i][1].value * (x[4] - c2[1]), inv[i][1].value * m1, p);
        let e0 = inv[i][0].value * mds[0][0].value + inv[i][1].value * mds[1][0].value;
        let e1 = inv[i][0].value * mds[0][1].value + inv[i][1].value * mds[1][1].value;
        lemma_mix_identity(
            inv[i][0].value as int,
            inv[i][1].value as int,
            mds[0][0].value as int,
            mds[0][1].value as int,
            mds[1][0].value as int,
            mds[1][1].value as int,
            b[0].value as int,
            b[1].value as int,
        );
        assert(e0 % p == (if i == 0 { 1int } else { 0int }));
        assert(e1 % p == (if i == 1 { 1int } else { 0int }));
        lemma_mul_congruent(e0, b[0].value as int, if i == 0 { 1int } else { 0int }, b[0].value as int, p);
        lemma_mul_congruent(e1, b[1].value as int, if i == 1 { 1int } else { 0int }, b[1].value as int, p);
        lemma_add_congruent2(
            e0 * b[0].value,
            (if i == 0 { 1int } else { 0int }) * b[0].value,
            e1 * b[1].value,
            (if i == 1 { 1int } else { 0int }) * b[1].value,
            p,
        );
        assert(bw % p == (b[i].value as int) % p);
        assert(b[i].value == pow(a[i].value as int, ALPHA_INV as nat) % p);
        lemma_mod_twice(pow(a[i].value as int, ALPHA_INV as nat), p);
        lemma_pow_congruent(bw, pow(a[i].value as int, ALPHA_INV as nat), 3, p);
        // the constraint
        assert(mp_eval(cs[i]@, x) % p == rp.air_value(i, x, c1, c2) % p);
        assert(rp.air_value(i, x, c1, c2) == fw + c1[i] - pow(bw, 3));
        lemma_sub_congruent(fw + c1[i], a[i].value as int, pow(bw, 3), pow(pow(a[i].value as int, ALPHA_INV as nat), 3), p);
    }
}


/// Cubing undoes the inverse S-box power modulo the STARK modulus:
/// `(y^ALPHA_INV)^3 ≡ y`, as `3 · ALPHA_INV = 2 (p − 1) + 1`.
pub proof fn lemma_cube_undoes_inverse_power(y: int)
    ensures
        pow(pow(y, ALPHA_INV as nat), 3) % (MAIN_PRIME as int) == y % (MAIN_PRIME as int),
{
    let p = MAIN_PRIME as int;
    let n = (MAIN_PRIME - 1) as nat;
    let e = (n * 2 + 1) as nat;
    lemma_pow_multiplies(y, ALPHA_INV as nat, 3);
    assert(ALPHA_INV * 3 == e);
    if y % p == 0 {
        lemma_pow_mod_noop(y, e, p);
        lemma_pow_adds(0, 1, (e - 1) as nat);
        lemma_pow1(0);
        assert(pow(0, e) == 0);
        lemma_small_mod(0, p as nat);
    } else {
        crate::field::prime::lemma_fermat(y);
        crate::field::prime::lemma_pow_one_power(y, n, 2, p);
        crate::field::prime::lemma_pow_split(y, n * 2, 1, p);
        lemma_pow1(y);
    }
}

/// The trace of hashing any input satisfies the Rescue-Prime AIR: at
/// every cycle below 27, each transition constraint vanishes modulo the
/// field's modulus on the states before and after the round (with the
/// MDS inverse the matrix's inverse and the first 27 powers of `omicron`
/// distinct).
pub proof fn lemma_trace_satisfies_air(rp: RescuePrime, cs: Seq<MPolynomial>, omicron: FieldElement, input: FieldElement, c: nat)
    requires
        rp.inv(),
        rp.is_rescue_air(cs, omicron),
        input.field == rp.field_spec(),
        omicron.field == rp.field_spec(),
        distinct_points(powers(omicron, 27)),
        c < 27,
    ensures
        forall|i: int|
            0 <= i < 2 ==> #[trigger] mp_eval(cs[i]@, rp.trace_point(omicron, input, c)) % (MAIN_PRIME as int) == 0,
{
    rp.lemma_inv();
    let p = MAIN_PRIME as int;
    let ds = powers(omicron, 27);
    assert forall|k: int| 0 <= k < ds.len() implies (#[trigger] ds[k]).value < MAIN_PRIME by {
        lemma_mod_bound(pow(omicron.value as int, k as nat), p);
    }
    crate::field::prime::lemma_distinct_points_invertible(ds);
    lemma_trace_constraint_values(rp, cs, omicron, input, c);
    let a = rp.first_half(rp.state_after(input, c), c as int);
    assert forall|i: int| 0 <= i < 2 implies #[trigger] mp_eval(cs[i]@, rp.trace_point(omicron, input, c)) % p == 0 by {
        let v = a[i].value as int;
        let w = pow(pow(v, ALPHA_INV as nat), 3);
        lemma_cube_undoes_inverse_power(v);
        lemma_sub_mod_noop_right(v, w, p);
        lemma_mod_self_0(p);
        assert(v - w % p == v - v % p);
        lemma_fundamental_div_mod(v, p);
        lemma_mod_multiples_vanish(v / p, 0, p);
        lemma_small_mod(0, p as nat);
        assert(v - v % p == p * (v / p));
    }
}

} // verus!
