//! Definition of the prime field `GF(p)` and its arithmetic primitives.
//!
//! A field is given by its modulus `p < 2^128`; elements hold their residue
//! in `[0, p)` as a `u128`.  The default field is the STARK field
//! `p = 1 + 407 * 2^119`.

pub mod arith;
pub mod element;
pub mod laws;
pub mod prime;

pub use element::FieldElement;

use vstd::prelude::*;
use vstd::arithmetic::div_mod::*;
use vstd::arithmetic::mul::*;
use vstd::arithmetic::power::*;
use vstd::arithmetic::power2::*;

use crate::field::arith::{add_mod, inv_mod, mul_mod, spec_inverse, sub_mod};
use crate::math::lemma_pow2_lt_half;

verus! {

/// The STARK prime `1 + 407 * 2^119`.
pub const MAIN_PRIME: u128 = 270497897142230380135924736767050121217u128;

/// The canonical generator of the STARK field: an element of multiplicative
/// order `2^119` (see `prime::lemma_generator_order`).
pub const MAIN_GENERATOR: u128 = 85408008396924667383611388730472331217u128;

/// `2^119`, the largest power of two dividing `MAIN_PRIME - 1`.
pub const TWO_ADIC_ORDER: u128 = 664613997892457936451903530140172288u128;

/// The value of a big-endian byte string.
pub open spec fn bytes_to_nat(s: Seq<u8>) -> nat
    decreases s.len(),
{
    if s.len() == 0 {
        0
    } else {
        bytes_to_nat(s.drop_last()) * 256 + (s.last() as nat)
    }
}

/// Represents a prime field `GF(p)`.
///
/// Handles the core arithmetic operations (add, subtract, multiply, divide)
/// modulo `p` and acts as a factory for [`FieldElement`]s.
#[derive(Clone, Copy, Debug, PartialEq, Eq, Structural)]
pub struct Field {
    /// The prime modulus `p`.
    pub p: u128,
}

impl Field {
    /// The element of this field that represents the integer `v`.
    pub open spec fn element_of(self, v: int) -> FieldElement {
        FieldElement { value: (v % (self.p as int)) as u128, field: self }
    }

    /// Creates a new `Field` with the given modulus.
    pub fn new(p: u128) -> (f: Field)
        ensures
            f.p == p,
    {
        Field { p }
    }

    /// The default STARK field: `p = 1 + 407 * 2^119`.
    pub fn main() -> (f: Field)
        ensures
            f.p == MAIN_PRIME,
    {
        Field { p: MAIN_PRIME }
    }

    /// The element `val mod p`.
    pub fn from_u64(&self, val: u64) -> (e: FieldElement)
        requires
            self.p > 0,
        ensures
            e == self.element_of(val as int),
            e.wf(),
    {
        FieldElement { value: (val as u128) % self.p, field: *self }
    }

    /// Returns the additive identity `0`.
    pub fn zero(&self) -> (e: FieldElement)
        requires
            self.p > 0,
        ensures
            e == self.element_of(0),
            e.value == 0,
            e.wf(),
    {
        FieldElement { value: 0, field: *self }
    }

    /// Returns the multiplicative identity `1`.
    pub fn one(&self) -> (e: FieldElement)
        requires
            self.p > 0,
        ensures
            e == self.element_of(1),
            e.wf(),
    {
        FieldElement { value: 1 % self.p, field: *self }
    }

    /// Modular multiplication: `(left * right) % p`.
    pub fn multiply(&self, left: &FieldElement, right: &FieldElement) -> (e: FieldElement)
        requires
            self.p > 0,
        ensures
            e == self.element_of(left.value * right.value),
            e.wf(),
    {
        let v = mul_mod(left.value % self.p, right.value % self.p, self.p);
        proof {
            lemma_mul_mod_noop_general(left.value as int, right.value as int, self.p as int);
        }
        FieldElement { value: v, field: *self }
    }

    /// Modular addition: `(left + right) % p`.
    pub fn add(&self, left: &FieldElement, right: &FieldElement) -> (e: FieldElement)
        requires
            self.p > 0,
        ensures
            e == self.element_of(left.value + right.value),
            e.wf(),
    {
        let v = add_mod(left.value % self.p, right.value % self.p, self.p);
        proof {
            lemma_add_mod_noop(left.value as int, right.value as int, self.p as int);
        }
        FieldElement { value: v, field: *self }
    }

    /// Modular subtraction: `(left - right) mod p`, in `[0, p)`.
    pub fn subtract(&self, left: &FieldElement, right: &FieldElement) -> (e: FieldElement)
        requires
            self.p > 0,
        ensures
            e == self.element_of(left.value - right.value),
            e.wf(),
    {
        let v = sub_mod(left.value % self.p, right.value % self.p, self.p);
        proof {
            lemma_sub_mod_noop(left.value as int, right.value as int, self.p as int);
        }
        FieldElement { value: v, field: *self }
    }

    /// Modular negation: `(-operand) mod p`.
    pub fn negate(&self, operand: &FieldElement) -> (e: FieldElement)
        requires
            self.p > 0,
        ensures
            e == self.element_of(-operand.value),
            e.wf(),
    {
        let v = sub_mod(0, operand.value % self.p, self.p);
        proof {
            lemma_sub_mod_noop(0, operand.value as int, self.p as int);
            lemma_small_mod(0, self.p as nat);
        }
        FieldElement { value: v, field: *self }
    }

    /// Modular inverse by the extended Euclidean algorithm: the Bézout
    /// coefficient of the operand against `p`.  For a prime `p` this is the
    /// multiplicative inverse (see [`FieldElement::lemma_inverse_cancels`]).
    pub fn inverse(&self, operand: &FieldElement) -> (e: FieldElement)
        requires
            self.p > 0,
            operand.value != 0,
        ensures
            e == self.element_of(spec_inverse((operand.value % self.p) as nat, self.p as nat) as int),
            e.wf(),
    {
        let v = inv_mod(operand.value % self.p, self.p);
        proof {
            lemma_small_mod(v as nat, self.p as nat);
        }
        FieldElement { value: v, field: *self }
    }

    /// Modular division: `left * (1 / right)`.
    pub fn divide(&self, left: &FieldElement, right: &FieldElement) -> (e: FieldElement)
        requires
            self.p > 0,
            right.value != 0,
        ensures
            e == self.element_of(
                left.value * spec_inverse((right.value % self.p) as nat, self.p as nat),
            ),
            e.wf(),
    {
        let a = self.inverse(right);
        proof {
            let x = (right.value % self.p) as nat;
            lemma_small_mod(spec_inverse(x, self.p as nat), self.p as nat);
        }
        self.multiply(left, &a)
    }

    /// The canonical generator for the `p = 1 + 407 * 2^119` field.
    pub fn generator(&self) -> (e: FieldElement)
        requires
            self.p == MAIN_PRIME,
        ensures
            e == self.element_of(MAIN_GENERATOR as int),
            e.value == MAIN_GENERATOR,
            e.wf(),
    {
        proof {
            lemma_small_mod(MAIN_GENERATOR as nat, MAIN_PRIME as nat);
        }
        FieldElement { value: MAIN_GENERATOR, field: *self }
    }

    /// A primitive `n`-th root of unity of the STARK field, `n` a power of two:
    /// the generator raised to `2^119 / n`.
    pub fn primitive_nth_root(&self, n: u64) -> (e: FieldElement)
        requires
            self.p == MAIN_PRIME,
            is_pow2(n as int),
        ensures
            e == self.element_of(pow(MAIN_GENERATOR as int, (TWO_ADIC_ORDER / (n as u128)) as nat)),
            e.wf(),
    {
        let mut root: u128 = MAIN_GENERATOR;
        let mut order: u128 = TWO_ADIC_ORDER;
        let ghost mut c: nat = 1;
        let target = n as u128;
        proof {
            reveal_with_fuel(pow, 2);
            lemma_small_mod(MAIN_GENERATOR as nat, MAIN_PRIME as nat);
            assert(is_pow2(TWO_ADIC_ORDER as int)) by {
                lemma2_to64();
                lemma2_to64_rest();
                lemma_pow2_adds(64, 55);
                assert(pow2(119) == TWO_ADIC_ORDER);
                lemma_pow_positive(2, 119);
                assert(pow(2, 119) == TWO_ADIC_ORDER as int);
                assert(is_pow2_exists(TWO_ADIC_ORDER as int));
                is_pow2_equiv(TWO_ADIC_ORDER as int);
            }
            if target > TWO_ADIC_ORDER {
                assert(false);
            }
        }
        while order != target
            invariant
                root < MAIN_PRIME,
                root == pow(MAIN_GENERATOR as int, c) % (MAIN_PRIME as int),
                order * c == TWO_ADIC_ORDER,
                is_pow2(order as int),
                is_pow2(target as int),
                target <= order,
            decreases order,
        {
            proof {
                lemma_pow2_lt_half(target as int, order as int);
            }
            let ghost c0 = c;
            let ghost root0 = root;
            root = mul_mod(root, root, MAIN_PRIME);
            order = order / 2;
            proof {
                c = 2 * c0;
                lemma_pow_multiplies(MAIN_GENERATOR as int, c0, 2);
                lemma_square_is_pow2(pow(MAIN_GENERATOR as int, c0));
                assert(pow(pow(MAIN_GENERATOR as int, c0), 2) == pow(MAIN_GENERATOR as int, c0)
                    * pow(MAIN_GENERATOR as int, c0)) by {
                    reveal_with_fuel(pow, 3);
                }
                lemma_mul_mod_noop_general(
                    pow(MAIN_GENERATOR as int, c0),
                    pow(MAIN_GENERATOR as int, c0),
                    MAIN_PRIME as int,
                );
                lemma_mul_is_commutative(c0 as int, 2);
                lemma_fundamental_div_mod(order * 2 as int, 2);
                lemma_mul_is_associative(order as int, 2, c0 as int);
            }
        }
        proof {
            lemma_div_multiples_vanish(c as int, target as int);
            lemma_mul_is_commutative(c as int, target as int);
            lemma_small_mod(root as nat, MAIN_PRIME as nat);
        }
        FieldElement { value: root, field: *self }
    }

    /// Maps a byte string to a field element: its big-endian value mod `p`.
    pub fn sample(&self, byte_array: &[u8]) -> (e: FieldElement)
        requires
            self.p > 0,
        ensures
            e == self.element_of(bytes_to_nat(byte_array@) as int),
            e.wf(),
    {
        let p = self.p;
        let mut acc: u128 = 0;
        let radix = 256u128 % p;
        let mut i: usize = 0;
        proof {
            assert(byte_array@.take(0) =~= Seq::<u8>::empty());
            lemma_small_mod(0, p as nat);
        }
        while i < byte_array.len()
            invariant
                i <= byte_array.len(),
                acc < p,
                p == self.p,
                radix == 256int % (p as int),
                acc == (bytes_to_nat(byte_array@.take(i as int)) as int) % (p as int),
            decreases byte_array.len() - i,
        {
            let b = (byte_array[i] as u128) % p;
            let shifted = mul_mod(acc, radix, p);
            let next = add_mod(shifted, b, p);
            proof {
                let pre = byte_array@.take(i as int);
                let s = byte_array@.take(i + 1);
                assert(s.drop_last() =~= pre);
                assert(s.last() == byte_array@[i as int]);
                let v = bytes_to_nat(pre) as int;
                let pi = p as int;
                lemma_mul_mod_noop_general(v, 256, pi);
                lemma_add_mod_noop(v * 256, byte_array@[i as int] as int, pi);
            }
            acc = next;
            i = i + 1;
        }
        proof {
            assert(byte_array@.take(byte_array.len() as int) =~= byte_array@);
            lemma_mod_twice(bytes_to_nat(byte_array@) as int, p as int);
        }
        FieldElement { value: acc, field: *self }
    }
}

} // verus!
