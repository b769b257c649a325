//! A single element of a prime field `GF(p)`.

use vstd::prelude::*;
use vstd::arithmetic::div_mod::*;
use vstd::arithmetic::power::*;

use crate::field::arith::{pow_mod, spec_inverse};
use vstd::utf8::{encode_utf8, partial_valid_utf8_extend_ascii_block, valid_utf8};

use crate::crypto::encoding::string_from_utf8;
use crate::field::Field;

verus! {

/// An element of a prime field `GF(p)`: its residue and the field it
/// belongs to.  Arithmetic is available both through the [`Field`] methods
/// and through the operators `+`, `-`, `*`, `/` and unary `-`.
#[derive(Clone, Copy, Debug)]
pub struct FieldElement {
    /// Residue in `[0, p)`.
    pub value: u128,
    /// The field this element belongs to.
    pub field: Field,
}

/// The ASCII decimal representation of `n`, most significant digit first.
pub open spec fn decimal_digits(n: nat) -> Seq<u8>
    decreases n,
{
    if n < 10 {
        seq![(48 + n) as u8]
    } else {
        decimal_digits(n / 10).push((48 + n % 10) as u8)
    }
}

/// Every decimal digit is an ASCII digit.
proof fn lemma_decimal_ascii(n: nat)
    ensures
        forall|i: int| 0 <= i < decimal_digits(n).len() ==> 48 <= #[trigger] decimal_digits(n)[i] <= 57,
    decreases n,
{
    if n >= 10 {
        lemma_decimal_ascii(n / 10);
        let prev = decimal_digits(n / 10);
        assert(decimal_digits(n) == prev.push((48 + n % 10) as u8));
        assert forall|i: int| 0 <= i < decimal_digits(n).len() implies 48 <= #[trigger] decimal_digits(n)[i] <= 57 by {
            if i < prev.len() {
                assert(decimal_digits(n)[i] == prev[i]);
            }
        }
    } else {
        assert(decimal_digits(n) == seq![(48 + n) as u8]);
    }
}

/// Appends the decimal digits of `n` to `out`.
fn push_decimal(n: u128, out: &mut Vec<u8>)
    ensures
        final(out)@ == old(out)@ + decimal_digits(n as nat),
    decreases n,
{
    if n >= 10 {
        push_decimal(n / 10, out);
    }
    let digit = (48 + n % 10) as u8;
    out.push(digit);
    proof {
        if n >= 10 {
            assert(decimal_digits(n as nat) == decimal_digits((n / 10) as nat).push(digit));
        } else {
            assert(decimal_digits(n as nat) == seq![digit]);
        }
    }
}

impl FieldElement {
    /// The residue lies below the modulus.
    pub open spec fn wf(self) -> bool {
        self.value < self.field.p
    }

    /// Creates a field element, reducing `value` modulo `p`.
    pub fn new(value: u128, field: Field) -> (e: FieldElement)
        requires
            field.p > 0,
        ensures
            e == field.element_of(value as int),
            e.wf(),
    {
        FieldElement { value: value % field.p, field }
    }

    /// Returns `true` if this element is the additive identity (zero).
    pub fn is_zero(&self) -> (r: bool)
        ensures
            r == (self.value == 0),
    {
        self.value == 0
    }
}


impl FieldElement {
    /// Modular multiplicative inverse of this element by the extended
    /// Euclidean algorithm.  Zero has no inverse and is excluded.
    pub fn inverse(&self) -> (e: FieldElement)
        requires
            self.field.p > 0,
            self.value != 0,
        ensures
            e == self.field.element_of(
                spec_inverse((self.value % self.field.p) as nat, self.field.p as nat) as int,
            ),
            e.wf(),
    {
        self.field.inverse(self)
    }

    /// Modular exponentiation by square-and-multiply.
    pub fn pow(&self, exponent: u64) -> (e: FieldElement)
        requires
            self.field.p > 0,
        ensures
            e == self.field.element_of(pow(self.value as int, exponent as nat)),
            e.wf(),
    {
        self.pow_u128(exponent as u128)
    }

    /// Modular exponentiation with a 128-bit exponent.
    pub fn pow_u128(&self, exponent: u128) -> (e: FieldElement)
        requires
            self.field.p > 0,
        ensures
            e == self.field.element_of(pow(self.value as int, exponent as nat)),
            e.wf(),
    {
        let p = self.field.p;
        let v = pow_mod(self.value % p, exponent, p);
        proof {
            lemma_pow_mod_noop(self.value as int, exponent as nat, p as int);
        }
        FieldElement { value: v, field: self.field }
    }

    /// Serialises the element to bytes: the ASCII decimal digits of its
    /// residue.
    pub fn to_bytes(&self) -> (r: Vec<u8>)
        ensures
            r@ == decimal_digits(self.value as nat),
    {
        let mut out: Vec<u8> = Vec::new();
        push_decimal(self.value, &mut out);
        proof {
            assert(out@ =~= decimal_digits(self.value as nat));
        }
        out
    }

    /// The decimal representation of the residue as a `String`.
    pub fn to_string(&self) -> (s: String)
        ensures
            encode_utf8(s@) == decimal_digits(self.value as nat),
    {
        let bytes = self.to_bytes();
        proof {
            let b = bytes@;
            lemma_decimal_ascii(self.value as nat);
            assert(b.subrange(0, 0) =~= Seq::<u8>::empty());
            partial_valid_utf8_extend_ascii_block(b, 0, b.len() as int);
            assert(b.subrange(0, b.len() as int) =~= b);
            assert(valid_utf8(b));
        }
        match string_from_utf8(bytes) {
            Some(text) => text,
            None => String::new(),
        }
    }
}

impl core::ops::Add for FieldElement {
    type Output = FieldElement;

    fn add(self, rhs: FieldElement) -> (e: FieldElement) {
        self.field.add(&self, &rhs)
    }
}

impl vstd::std_specs::ops::AddSpecImpl for FieldElement {
    open spec fn obeys_add_spec() -> bool {
        true
    }

    open spec fn add_req(self, rhs: FieldElement) -> bool {
        self.field.p > 0
    }

    open spec fn add_spec(self, rhs: FieldElement) -> FieldElement {
        self.field.element_of(self.value + rhs.value)
    }
}

impl core::ops::Sub for FieldElement {
    type Output = FieldElement;

    fn sub(self, rhs: FieldElement) -> (e: FieldElement) {
        self.field.subtract(&self, &rhs)
    }
}

impl vstd::std_specs::ops::SubSpecImpl for FieldElement {
    open spec fn obeys_sub_spec() -> bool {
        true
    }

    open spec fn sub_req(self, rhs: FieldElement) -> bool {
        self.field.p > 0
    }

    open spec fn sub_spec(self, rhs: FieldElement) -> FieldElement {
        self.field.element_of(self.value - rhs.value)
    }
}

impl core::ops::Mul for FieldElement {
    type Output = FieldElement;

    fn mul(self, rhs: FieldElement) -> (e: FieldElement) {
        self.field.multiply(&self, &rhs)
    }
}

impl vstd::std_specs::ops::MulSpecImpl for FieldElement {
    open spec fn obeys_mul_spec() -> bool {
        true
    }

    open spec fn mul_req(self, rhs: FieldElement) -> bool {
        self.field.p > 0
    }

    open spec fn mul_spec(self, rhs: FieldElement) -> FieldElement {
        self.field.element_of(self.value * rhs.value)
    }
}

impl core::ops::Div for FieldElement {
    type Output = FieldElement;

    fn div(self, rhs: FieldElement) -> (e: FieldElement) {
        self.field.divide(&self, &rhs)
    }
}

impl vstd::std_specs::ops::DivSpecImpl for FieldElement {
    open spec fn obeys_div_spec() -> bool {
        true
    }

    open spec fn div_req(self, rhs: FieldElement) -> bool {
        self.field.p > 0 && rhs.value != 0
    }

    open spec fn div_spec(self, rhs: FieldElement) -> FieldElement {
        self.field.element_of(
            self.value * spec_inverse((rhs.value % self.field.p) as nat, self.field.p as nat),
        )
    }
}

impl core::ops::Neg for FieldElement {
    type Output = FieldElement;

    fn neg(self) -> (e: FieldElement) {
        self.field.negate(&self)
    }
}

impl vstd::std_specs::ops::NegSpecImpl for FieldElement {
    open spec fn obeys_neg_spec() -> bool {
        true
    }

    open spec fn neg_req(self) -> bool {
        self.field.p > 0
    }

    open spec fn neg_spec(self) -> FieldElement {
        self.field.element_of(-self.value)
    }
}

impl PartialEq for FieldElement {
    fn eq(&self, other: &FieldElement) -> (r: bool) {
        self.value == other.value
    }
}

impl vstd::std_specs::cmp::PartialEqSpecImpl for FieldElement {
    open spec fn obeys_eq_spec() -> bool {
        true
    }

    open spec fn eq_spec(&self, other: &FieldElement) -> bool {
        self.value == other.value
    }
}

impl Eq for FieldElement {

}

} // verus!
