//! Algebraic laws of the field operations, stated over the specifications
//! that the operators `+`, `-`, `*`, `/` and unary `-` carry.

use vstd::prelude::*;
use vstd::arithmetic::div_mod::*;
use vstd::arithmetic::mul::*;
use vstd::std_specs::ops::{AddSpec, DivSpec, MulSpec, NegSpec, SubSpec};

use crate::field::arith::spec_inverse;
use crate::field::FieldElement;
use crate::math::{lemma_xgcd_bezout, lemma_xgcd_gcd, spec_gcd, spec_xgcd};

verus! {

/// Adding and then subtracting the same element gives back the first operand:
/// `(a + b) - b == a`.
pub proof fn lemma_add_sub_cancel(a: FieldElement, b: FieldElement)
    requires
        a.wf(),
        b.wf(),
        a.field == b.field,
    ensures
        a.add_spec(b).sub_spec(b) == a,
{
    let p = a.field.p as int;
    let s = (a.value + b.value) % p;
    lemma_sub_mod_noop(a.value + b.value, b.value as int, p);
    lemma_mod_twice(a.value + b.value, p);
    lemma_mod_twice(b.value as int, p);
    lemma_small_mod(a.value as nat, a.field.p as nat);
    lemma_small_mod(b.value as nat, a.field.p as nat);
    assert((s - b.value) % p == (a.value + b.value - b.value) % p);
}

/// An element plus its negation is zero: `a + (-a) == 0`.
pub proof fn lemma_neg_is_additive_inverse(a: FieldElement)
    requires
        a.wf(),
    ensures
        a.add_spec(a.neg_spec()).value == 0,
        a.add_spec(a.neg_spec()) == a.field.element_of(0),
{
    let p = a.field.p as int;
    lemma_add_mod_noop_right(a.value as int, -a.value, p);
    lemma_mod_self_0(p);
    lemma_small_mod(0, a.field.p as nat);
}

/// Addition is commutative: `a + b == b + a` for elements of one field.
pub proof fn lemma_add_commutes(a: FieldElement, b: FieldElement)
    requires
        a.field == b.field,
    ensures
        a.add_spec(b) == b.add_spec(a),
{
}

/// Multiplication is commutative: `a * b == b * a` for elements of one field.
pub proof fn lemma_mul_commutes(a: FieldElement, b: FieldElement)
    requires
        a.field == b.field,
    ensures
        a.mul_spec(b) == b.mul_spec(a),
{
    lemma_mul_is_commutative(a.value as int, b.value as int);
}

/// Multiplying an element by its inverse gives one, whenever the residue is
/// coprime to the modulus (which holds for every non-zero element of a
/// prime field).
pub proof fn lemma_inverse_cancels(a: FieldElement)
    requires
        a.wf(),
        a.value != 0,
        spec_gcd(a.value as nat, a.field.p as nat) == 1,
    ensures
        a.mul_spec(a.field.element_of(spec_inverse(a.value as nat, a.field.p as nat) as int))
            == a.field.element_of(1),
{
    let p = a.field.p as int;
    let x = a.value as nat;
    let c = spec_xgcd(x, a.field.p as nat);
    lemma_xgcd_bezout(x, a.field.p as nat);
    lemma_xgcd_gcd(x, a.field.p as nat);
    // c.0 * x + c.1 * p == 1, so c.0 * x == 1 (mod p)
    lemma_mod_multiples_vanish(c.1, c.0 * x, p);
    lemma_mul_is_commutative(c.1, p);
    let inv = spec_inverse(x, a.field.p as nat) as int;
    assert(inv == c.0 % p);
    lemma_mod_bound(c.0, p);
    lemma_small_mod(inv as nat, a.field.p as nat);
    lemma_mul_mod_noop_left(c.0, x as int, p);
    lemma_mul_is_commutative(x as int, inv);
    lemma_mul_is_commutative(x as int, c.0);
}

/// Multiplying by an element and then dividing by it gives back the
/// first operand, whenever the divisor is coprime to the modulus:
/// `(a * b) / b == a`.
pub proof fn lemma_mul_div_cancel(a: FieldElement, b: FieldElement)
    requires
        a.wf(),
        b.wf(),
        a.field == b.field,
        b.value != 0,
        spec_gcd(b.value as nat, b.field.p as nat) == 1,
    ensures
        a.mul_spec(b).div_spec(b) == a,
{
    let p = a.field.p as int;
    let inv = spec_inverse(b.value as nat, b.field.p as nat) as int;
    lemma_inverse_cancels(b);
    lemma_small_mod(b.value as nat, b.field.p as nat);
    lemma_small_mod(a.value as nat, a.field.p as nat);
    // ((a*b) % p * inv) % p == (a * (b * inv)) % p == (a * ((b * inv) % p)) % p == a % p
    lemma_mod_bound(spec_xgcd(b.value as nat, b.field.p as nat).0, p);
    lemma_small_mod(inv as nat, b.field.p as nat);
    lemma_small_mod(1, b.field.p as nat);
    assert((b.value * inv) % p == 1);
    let m = (a.value * b.value) % p;
    lemma_mul_mod_noop_left(a.value * b.value, inv, p);
    lemma_mul_is_associative(a.value as int, b.value as int, inv);
    lemma_mul_mod_noop_right(a.value as int, b.value * inv, p);
    lemma_mul_basics(a.value as int);
    assert((m * inv) % p == a.value);
    assert(((b.value % b.field.p) as nat) == b.value as nat);
}

} // verus!
