//! STARK parameters, degree bounds, zerofiers and interpolants.

use vstd::prelude::*;
use vstd::arithmetic::div_mod::*;
use vstd::arithmetic::mul::*;
use vstd::arithmetic::power::*;
use vstd::arithmetic::power2::*;

use crate::bytes::{concat_bytes, zero_bytes};
use crate::crypto::digest::{blake2b512, blake2b512_digest};
use crate::field::{bytes_to_nat, Field, FieldElement, MAIN_GENERATOR, MAIN_PRIME, TWO_ADIC_ORDER};
use crate::polynomial::multivariate::{term_views, MPolynomial};
use crate::polynomial::{
    all_in_field, differences_invertible, distinct_points, lagrange_sum, lemma_zerofier_monic, points_in_field, poly_eval, zerofier,
    Polynomial,
};
use crate::fri::Fri;
use crate::math::{is_unit, lemma_unit_mod, lemma_unit_pow};

verus! {

/// Boundary condition `(cycle, register, value)`.
pub type BoundaryConstraint = (usize, usize, FieldElement);

/// The number of bits of `v`: the least `b` with `v < 2^b`.
pub open spec fn bits_of(v: nat) -> nat
    decreases v,
{
    if v == 0 {
        0
    } else {
        1 + bits_of(v / 2)
    }
}

/// `v < 2^bits_of(v)`, and `2^(bits_of(v) - 1) <= v` for positive `v`.
pub proof fn lemma_bits_of(v: nat)
    ensures
        v < pow2(bits_of(v)),
        v > 0 ==> pow2((bits_of(v) - 1) as nat) <= v,
    decreases v,
{
    lemma2_to64();
    if v > 0 {
        lemma_bits_of(v / 2);
        lemma_pow2_unfold(bits_of(v));
        if v / 2 > 0 {
            lemma_pow2_unfold((bits_of(v) - 1) as nat);
        }
    }
}

/// A value below `2^n` has at most `n` bits.
proof fn lemma_bits_of_bound(v: nat, n: nat)
    requires
        v < pow2(n),
    ensures
        bits_of(v) <= n,
    decreases v,
{
    if v > 0 {
        if n == 0 {
            lemma2_to64();
        } else {
            lemma_pow2_unfold(n);
            lemma_bits_of_bound(v / 2, (n - 1) as nat);
        }
    }
}

/// Returns the number of bits needed to represent `value`.
pub fn bit_length(value: usize) -> (b: u32)
    ensures
        b == bits_of(value as nat),
        b <= usize::BITS,
{
    let mut v = value;
    let mut b: u32 = 0;
    proof {
        lemma_bits_of(value as nat);
        lemma2_to64();
        lemma_bits_of_bound(value as nat, usize::BITS as nat);
    }
    while v > 0
        invariant
            b + bits_of(v as nat) == bits_of(value as nat),
            (value as nat) < pow2(bits_of(value as nat)),
            v <= value,
            b as nat + bits_of(v as nat) <= usize::BITS,
        decreases v,
    {
        proof {
            lemma_bits_of(v as nat);
        }
        v = v / 2;
        b = b + 1;
    }
    b
}

/// The inverse of the generator witnesses that it is a unit.
pub proof fn lemma_generator_unit()
    ensures
        is_unit(MAIN_GENERATOR as int, MAIN_PRIME as int),
{
    let inv: int = 175439076212722741049629028429128606817;
    assert((MAIN_GENERATOR as int * inv) % (MAIN_PRIME as int) == 1);
}

/// The sizes derived from the STARK parameters fit in a `usize`.
pub open spec fn sizes_fit(expansion_factor: nat, num_colinearity_checks: nat, num_cycles: nat, degree: nat) -> bool {
    let randomized = num_cycles + 4 * num_colinearity_checks;
    &&& randomized <= usize::MAX
    &&& randomized * degree <= usize::MAX
    &&& pow2(bits_of(randomized * degree)) * expansion_factor <= usize::MAX
}

/// STARK protocol configuration.
#[derive(Debug)]
pub struct Stark {
    field: Field,
    expansion_factor: usize,
    security_level: usize,
    num_randomizers: usize,
    num_registers: usize,
    cycle_count: usize,
    generator: FieldElement,
    omega: FieldElement,
    omicron: FieldElement,
    omicron_domain: Vec<FieldElement>,
    fri: Fri,
}

impl Stark {
    /// The parameters fit together.
    #[verifier::type_invariant]
    pub closed spec fn inv(self) -> bool {
        &&& self.field.p == MAIN_PRIME
        &&& self.generator == self.field.element_of(MAIN_GENERATOR as int)
        &&& self.omega.wf() && self.omega.field == self.field
        &&& self.omicron.wf() && self.omicron.field == self.field
        &&& is_unit(self.omega.value as int, self.field.p as int)
        &&& is_pow2(self.expansion_factor as int)
        &&& self.expansion_factor >= 4
        &&& self.omicron_domain@.len() > 0
        &&& is_pow2(self.omicron_domain@.len() as int)
        &&& forall|i: int|
            0 <= i < self.omicron_domain@.len() ==> #[trigger] self.omicron_domain@[i] == self.field.element_of(
                pow(self.omicron.value as int, i as nat),
            )
        &&& self.fri.field_spec() == self.field
        &&& self.fri.offset_spec() == self.generator
        &&& self.fri.omega_spec() == self.omega
        &&& self.fri.expansion_spec() == self.expansion_factor
        &&& self.fri.domain_length_spec() == self.omicron_domain@.len() * self.expansion_factor
        &&& is_pow2(self.fri.domain_length_spec() as int)
        &&& self.omicron_domain@.len() * self.expansion_factor <= usize::MAX
        &&& self.cycle_count + self.num_randomizers <= usize::MAX
    }

    /// What the invariant says of the parameters that the prover and
    /// verifier use.
    pub proof fn lemma_inv(self)
        requires
            self.inv(),
        ensures
            self.field_spec().p == MAIN_PRIME,
            self.omicron_spec().wf(),
            self.omicron_spec().field == self.field_spec(),
            self.fri_spec().field_spec() == self.field_spec(),
            self.fri_spec().expansion_spec() == self.expansion_spec(),
            self.expansion_spec() >= 4,
            is_pow2(self.expansion_spec() as int),
            self.fri_spec().domain_length_spec() == self.omicron_domain_spec().len() * self.expansion_spec(),
            is_pow2(self.fri_spec().domain_length_spec() as int),
            self.fri_spec().domain_length_spec() <= usize::MAX,
            self.omicron_domain_spec().len() > 0,
            self.trace_length_spec() + self.num_randomizers_spec() <= usize::MAX,
            self.generator_spec() == self.field_spec().element_of(MAIN_GENERATOR as int),
            self.generator_spec().wf(),
            self.omega_spec().wf(),
            self.omega_spec().field == self.field_spec(),
            self.fri_spec().offset_spec() == self.generator_spec(),
            self.fri_spec().omega_spec() == self.omega_spec(),
    {
        lemma_small_mod(MAIN_GENERATOR as nat, MAIN_PRIME as nat);
    }

    /// The generator of the field, the offset of the FRI domain.
    pub closed spec fn generator_spec(&self) -> FieldElement {
        self.generator
    }

    /// The generator of the FRI domain.
    pub closed spec fn omega_spec(&self) -> FieldElement {
        self.omega
    }

    /// The generator of the field.
    pub(crate) fn generator(&self) -> (g: FieldElement)
        ensures
            g == self.generator_spec(),
    {
        self.generator
    }

    /// The generator of the FRI domain.
    pub(crate) fn omega(&self) -> (o: FieldElement)
        ensures
            o == self.omega_spec(),
    {
        self.omega
    }

    /// The field.
    pub closed spec fn field_spec(&self) -> Field {
        self.field
    }

    /// The number of randomizer rows.
    pub closed spec fn num_randomizers_spec(&self) -> nat {
        self.num_randomizers as nat
    }

    /// The security level.
    pub closed spec fn security_level_spec(&self) -> nat {
        self.security_level as nat
    }

    /// The number of registers.
    pub closed spec fn num_registers_spec(&self) -> nat {
        self.num_registers as nat
    }

    /// The length of the trace without randomizers.
    pub closed spec fn trace_length_spec(&self) -> nat {
        self.cycle_count as nat
    }

    /// The generator of the trace domain.
    pub closed spec fn omicron_spec(&self) -> FieldElement {
        self.omicron
    }

    /// The trace domain: the powers of omicron.
    pub closed spec fn omicron_domain_spec(&self) -> Seq<FieldElement> {
        self.omicron_domain@
    }

    /// The expansion factor.
    pub closed spec fn expansion_spec(&self) -> nat {
        self.expansion_factor as nat
    }

    /// The FRI instance.
    pub closed spec fn fri_spec(&self) -> Fri {
        self.fri
    }

    /// Creates a new STARK parameter set.
    pub fn new(
        field: Field,
        expansion_factor: usize,
        num_colinearity_checks: usize,
        security_level: usize,
        num_registers: usize,
        num_cycles: usize,
        transition_constraints_degree: usize,
    ) -> (s: Stark)
        requires
            field.p == MAIN_PRIME,
            security_level <= 128,
            is_pow2(expansion_factor as int),
            expansion_factor >= 4,
            num_colinearity_checks * 2 >= security_level,
            sizes_fit(expansion_factor as nat, num_colinearity_checks as nat, num_cycles as nat, transition_constraints_degree as nat),
        ensures
            s.field_spec() == field,
            s.num_randomizers_spec() == 4 * num_colinearity_checks,
            s.security_level_spec() == security_level,
            s.num_registers_spec() == num_registers,
            s.trace_length_spec() == num_cycles,
            s.expansion_spec() == expansion_factor,
            s.omicron_domain_spec().len() == pow2(bits_of(((num_cycles + 4 * num_colinearity_checks) * transition_constraints_degree) as nat)),
            s.omicron_spec() == field.element_of(pow(MAIN_GENERATOR as int, (TWO_ADIC_ORDER / (s.omicron_domain_spec().len() as u128)) as nat)),
            s.fri_spec().domain_length_spec() == s.omicron_domain_spec().len() * expansion_factor,
            s.fri_spec().tests_spec() == num_colinearity_checks,
            s.fri_spec().offset_spec() == field.element_of(MAIN_GENERATOR as int),
    {
        let num_randomizers = 4 * num_colinearity_checks;
        let randomized_trace_length = num_cycles + num_randomizers;
        let bits = bit_length(randomized_trace_length * transition_constraints_degree);
        let ghost b = bits as nat;
        let mut omicron_domain_length: usize = 1;
        let mut k: u32 = 0;
        proof {
            lemma2_to64();
            lemma_pow2_pos(b);
        }
        while k < bits
            invariant
                k <= bits,
                bits == b,
                omicron_domain_length == pow2(k as nat),
                pow2(b) * expansion_factor <= usize::MAX,
                expansion_factor >= 4,
            decreases bits - k,
        {
            proof {
                lemma_pow2_unfold((k + 1) as nat);
                if k + 1 < b {
                    lemma_pow2_strictly_increases((k + 1) as nat, b);
                }
                lemma_mul_inequality(pow2((k + 1) as nat) as int, pow2(b) as int, expansion_factor as int);
                let q = pow2((k + 1) as nat) as int;
                assert(q <= q * expansion_factor) by (nonlinear_arith)
                    requires
                        q >= 0,
                        expansion_factor >= 4,
                ;
            }
            omicron_domain_length = omicron_domain_length * 2;
            k = k + 1;
        }
        proof {
            lemma_mul_inequality(1, expansion_factor as int, omicron_domain_length as int);
            lemma_mul_is_commutative(omicron_domain_length as int, expansion_factor as int);
        }
        let fri_domain_length = omicron_domain_length * expansion_factor;
        proof {
            assert(is_pow2(omicron_domain_length as int)) by {
                lemma_pow2_pos(b);
                assert(is_pow2_exists(omicron_domain_length as int)) by {
                    lemma_pow2(b);
                }
                is_pow2_equiv(omicron_domain_length as int);
            }
            assert(is_pow2(fri_domain_length as int)) by {
                is_pow2_equiv(expansion_factor as int);
                let e = choose|i: nat| pow(2, i) == expansion_factor;
                lemma_pow2(b);
                lemma_pow_adds(2, b, e);
                assert(is_pow2_exists(fri_domain_length as int));
                is_pow2_equiv(fri_domain_length as int);
            }
        }
        let generator = field.generator();
        let omega = field.primitive_nth_root(fri_domain_length as u64);
        let omicron = field.primitive_nth_root(omicron_domain_length as u64);
        let mut omicron_domain: Vec<FieldElement> = Vec::new();
        let mut index: usize = 0;
        while index < omicron_domain_length
            invariant
                field.p == MAIN_PRIME,
                omicron.wf() && omicron.field == field,
                index <= omicron_domain_length,
                omicron_domain@.len() == index,
                forall|i: int|
                    0 <= i < index ==> #[trigger] omicron_domain@[i] == field.element_of(pow(omicron.value as int, i as nat)),
            decreases omicron_domain_length - index,
        {
            omicron_domain.push(omicron.pow(index as u64));
            index = index + 1;
        }
        proof {
            lemma_generator_unit();
            lemma_small_mod(MAIN_GENERATOR as nat, MAIN_PRIME as nat);
            let k_omega = (TWO_ADIC_ORDER / (fri_domain_length as u128)) as nat;
            lemma_unit_pow(MAIN_GENERATOR as int, k_omega, MAIN_PRIME as int);
            lemma_unit_mod(pow(MAIN_GENERATOR as int, k_omega), MAIN_PRIME as int);
        }
        let fri = Fri::new(generator, omega, fri_domain_length, expansion_factor, num_colinearity_checks);
        Stark {
            field,
            expansion_factor,
            security_level,
            num_randomizers,
            num_registers,
            cycle_count: num_cycles,
            generator,
            omega,
            omicron,
            omicron_domain,
            fri,
        }
    }

    /// Returns the number of randomizer rows appended to the trace.
    pub fn num_randomizers(&self) -> (n: usize)
        ensures
            n == self.num_randomizers_spec(),
    {
        self.num_randomizers
    }

    /// Returns the configured security level.
    pub fn security_level(&self) -> (n: usize)
        ensures
            n == self.security_level_spec(),
    {
        self.security_level
    }

    /// The number of registers.
    pub(crate) fn register_count(&self) -> (n: usize)
        ensures
            n == self.num_registers_spec(),
    {
        self.num_registers
    }

    /// The field.
    pub(crate) fn field(&self) -> (f: Field)
        ensures
            f == self.field_spec(),
    {
        self.field
    }

    /// The expansion factor.
    pub(crate) fn expansion(&self) -> (n: usize)
        ensures
            n == self.expansion_spec(),
    {
        self.expansion_factor
    }

    /// The length of the trace without randomizers.
    pub(crate) fn trace_length(&self) -> (n: usize)
        ensures
            n == self.trace_length_spec(),
    {
        self.cycle_count
    }

    /// The length of the trace domain.
    pub(crate) fn trace_domain_length(&self) -> (n: usize)
        ensures
            n == self.omicron_domain_spec().len(),
    {
        self.omicron_domain.len()
    }

    /// The degree of each variable of the transition constraints.
    pub(crate) fn point_degrees_exec(&self) -> (pd: Vec<usize>)
        requires
            self.trace_length_spec() + self.num_randomizers_spec() >= 1,
            1 + 2 * self.num_registers_spec() <= usize::MAX,
        ensures
            pd@ == self.point_degrees(),
    {
        proof {
            use_type_invariant(self);
        }
        let width = 1 + 2 * self.num_registers;
        let trace_degree = self.cycle_count + self.num_randomizers - 1;
        let mut pd: Vec<usize> = Vec::new();
        pd.push(1);
        let mut t: usize = 1;
        while t < width
            invariant
                1 <= t <= width,
                width == 1 + 2 * self.num_registers,
                trace_degree == self.cycle_count + self.num_randomizers - 1,
                pd@.len() == t,
                forall|k: int| 0 <= k < t ==> #[trigger] pd@[k] == self.point_degrees()[k],
            decreases width - t,
        {
            pd.push(trace_degree);
            t = t + 1;
        }
        proof {
            assert(pd@ =~= self.point_degrees());
        }
        pd
    }

    /// The FRI instance.
    pub(crate) fn fri(&self) -> (f: &Fri)
        ensures
            *f == self.fri_spec(),
    {
        &self.fri
    }

    /// Returns the generator of the trace domain used by the AIR.
    pub fn omicron(&self) -> (o: &FieldElement)
        ensures
            *o == self.omicron_spec(),
    {
        &self.omicron
    }
}

/// `Σ_{t<n} pd[t] · e[t]`.
pub open spec fn weighted_degree(e: Seq<usize>, pd: Seq<usize>, n: nat) -> int
    decreases n,
{
    if n == 0 {
        0
    } else {
        weighted_degree(e, pd, (n - 1) as nat) + pd[n - 1] * e[n - 1]
    }
}

/// The degree of a monomial when variable `t` stands for a polynomial of
/// degree `pd[t]` (variables beyond either list are ignored).
pub open spec fn term_degree(e: Seq<usize>, pd: Seq<usize>) -> int {
    weighted_degree(e, pd, if e.len() <= pd.len() { e.len() } else { pd.len() })
}

/// The largest term degree of a sparse polynomial (zero without terms).
pub open spec fn max_term_degree(terms: Seq<(Seq<usize>, FieldElement)>, pd: Seq<usize>) -> int
    decreases terms.len(),
{
    if terms.len() == 0 {
        0
    } else if term_degree(terms.last().0, pd) > max_term_degree(terms.drop_last(), pd) {
        term_degree(terms.last().0, pd)
    } else {
        max_term_degree(terms.drop_last(), pd)
    }
}

/// Partial weighted sums never decrease.
pub(crate) proof fn lemma_weighted_degree_grows(e: Seq<usize>, pd: Seq<usize>, m: nat, n: nat)
    requires
        m <= n,
    ensures
        0 <= weighted_degree(e, pd, m) <= weighted_degree(e, pd, n),
    decreases n,
{
    if n > 0 {
        let k = (n - 1) as int;
        assert(pd[k] * e[k] >= 0) by (nonlinear_arith)
            requires
                pd[k] >= 0,
                e[k] >= 0,
        ;
        if m < n {
            lemma_weighted_degree_grows(e, pd, m, (n - 1) as nat);
        } else {
            lemma_weighted_degree_grows(e, pd, 0, (n - 1) as nat);
        }
    }
}

/// The maximum term degree is at least zero and bounded by any bound on
/// all terms.
proof fn lemma_max_term_degree(terms: Seq<(Seq<usize>, FieldElement)>, pd: Seq<usize>, bound: int)
    requires
        bound >= 0,
        forall|j: int| 0 <= j < terms.len() ==> term_degree(#[trigger] terms[j].0, pd) <= bound,
    ensures
        0 <= max_term_degree(terms, pd) <= bound,
    decreases terms.len(),
{
    if terms.len() > 0 {
        assert forall|j: int| 0 <= j < terms.drop_last().len() implies term_degree(#[trigger] terms.drop_last()[j].0, pd) <= bound by {
            assert(terms.drop_last()[j] == terms[j]);
        }
        lemma_max_term_degree(terms.drop_last(), pd, bound);
        assert(term_degree(terms[terms.len() - 1].0, pd) <= bound);
    }
}

/// The points of the boundary constraints on `register`: `omicron^cycle`.
pub open spec fn boundary_points(b: Seq<BoundaryConstraint>, register: nat, omicron: FieldElement) -> Seq<FieldElement>
    decreases b.len(),
{
    if b.len() == 0 {
        Seq::empty()
    } else if b.last().1 == register {
        boundary_points(b.drop_last(), register, omicron).push(
            omicron.field.element_of(pow(omicron.value as int, b.last().0 as nat)),
        )
    } else {
        boundary_points(b.drop_last(), register, omicron)
    }
}

/// The values of the boundary constraints on `register`.
pub open spec fn boundary_values(b: Seq<BoundaryConstraint>, register: nat) -> Seq<FieldElement>
    decreases b.len(),
{
    if b.len() == 0 {
        Seq::empty()
    } else if b.last().1 == register {
        boundary_values(b.drop_last(), register).push(b.last().2)
    } else {
        boundary_values(b.drop_last(), register)
    }
}

/// Points and values of one register have the same length.
pub(crate) proof fn lemma_boundary_lengths(b: Seq<BoundaryConstraint>, register: nat, omicron: FieldElement)
    ensures
        boundary_points(b, register, omicron).len() == boundary_values(b, register).len(),
        boundary_points(b, register, omicron).len() <= b.len(),
    decreases b.len(),
{
    if b.len() > 0 {
        lemma_boundary_lengths(b.drop_last(), register, omicron);
    }
}

/// The boundary zerofier of a register: `Π (x − omicron^cycle)` over its
/// constraints, or `1` when there are none.
pub open spec fn boundary_zerofier(b: Seq<BoundaryConstraint>, register: nat, omicron: FieldElement) -> Seq<FieldElement> {
    let points = boundary_points(b, register, omicron);
    if points.len() == 0 {
        seq![omicron.field.element_of(1)]
    } else {
        zerofier(points, omicron.field)
    }
}

/// Where the differences of a register's boundary points are units modulo
/// the field's modulus, `q` takes the register's boundary values at its
/// boundary points.
pub open spec fn interpolates_boundary(q: Seq<FieldElement>, b: Seq<BoundaryConstraint>, register: nat, omicron: FieldElement) -> bool {
    let points = boundary_points(b, register, omicron);
    let values = boundary_values(b, register);
    differences_invertible(points, omicron.field.p as nat) ==> forall|k: int|
        0 <= k < points.len() ==> #[trigger] poly_eval(q, points[k].value as int) % (omicron.field.p as int) == values[k].value
}

/// The polynomial interpolating a register's boundary values at its
/// boundary points (the zero polynomial for a register without any).
pub open spec fn boundary_interpolant(b: Seq<BoundaryConstraint>, register: nat, omicron: FieldElement) -> Seq<FieldElement> {
    let points = boundary_points(b, register, omicron);
    if points.len() == 0 {
        Seq::empty()
    } else {
        lagrange_sum(points, boundary_values(b, register), points.len())
    }
}

/// Gathers the points and values of the boundary constraints on one register.
pub(crate) fn register_boundary(boundary: &[BoundaryConstraint], register: usize, omicron: FieldElement) -> (r: (Vec<FieldElement>, Vec<FieldElement>))
    requires
        omicron.field.p > 0,
    ensures
        r.0@ == boundary_points(boundary@, register as nat, omicron),
        r.1@ == boundary_values(boundary@, register as nat),
{
    let mut points: Vec<FieldElement> = Vec::new();
    let mut values: Vec<FieldElement> = Vec::new();
    let mut i: usize = 0;
    while i < boundary.len()
        invariant
            omicron.field.p > 0,
            i <= boundary@.len(),
            points@ == boundary_points(boundary@.take(i as int), register as nat, omicron),
            values@ == boundary_values(boundary@.take(i as int), register as nat),
        decreases boundary@.len() - i,
    {
        let (cycle, r, value) = boundary[i];
        proof {
            assert(boundary@.take(i + 1).drop_last() =~= boundary@.take(i as int));
        }
        if r == register {
            points.push(omicron.pow(cycle as u64));
            values.push(value);
        }
        i = i + 1;
    }
    proof {
        assert(boundary@.take(i as int) =~= boundary@);
    }
    (points, values)
}

impl Stark {
    /// The degree of each variable of the transition constraints: `x` has
    /// degree one, the current and next trace registers the degree of the
    /// randomized trace polynomials.
    pub open spec fn point_degrees(&self) -> Seq<usize> {
        Seq::new(
            1 + 2 * self.num_registers_spec(),
            |t: int| if t == 0 { 1usize } else { (self.trace_length_spec() + self.num_randomizers_spec() - 1) as usize },
        )
    }

    /// Every term degree of every constraint fits in a `usize`.
    pub open spec fn degrees_fit(&self, constraints: Seq<MPolynomial>) -> bool {
        forall|i: int, j: int|
            0 <= i < constraints.len() && 0 <= j < constraints[i]@.len() ==> term_degree(
                #[trigger] constraints[i]@[j].0,
                self.point_degrees(),
            ) <= usize::MAX
    }

    /// Returns the degree bound of each transition constraint: the largest
    /// degree of its terms with the trace polynomials substituted.
    pub fn transition_degree_bounds(&self, transition_constraints: &[MPolynomial]) -> (bounds: Vec<usize>)
        requires
            self.trace_length_spec() + self.num_randomizers_spec() >= 1,
            1 + 2 * self.num_registers_spec() <= usize::MAX,
            self.degrees_fit(transition_constraints@),
        ensures
            bounds@.len() == transition_constraints@.len(),
            forall|i: int|
                0 <= i < bounds@.len() ==> #[trigger] bounds@[i] == max_term_degree(
                    transition_constraints@[i]@,
                    self.point_degrees(),
                ),
    {
        proof {
            use_type_invariant(self);
        }
        let ghost pds = self.point_degrees();
        let width = 1 + 2 * self.num_registers;
        let trace_degree = self.cycle_count + self.num_randomizers - 1;
        let mut point_degrees: Vec<usize> = Vec::new();
        point_degrees.push(1);
        let mut t: usize = 1;
        while t < width
            invariant
                1 <= t <= width,
                width == 1 + 2 * self.num_registers,
                trace_degree == self.cycle_count + self.num_randomizers - 1,
                point_degrees@.len() == t,
                forall|k: int| 0 <= k < t ==> #[trigger] point_degrees@[k] == pds[k],
                pds == self.point_degrees(),
            decreases width - t,
        {
            point_degrees.push(trace_degree);
            t = t + 1;
        }
        proof {
            assert(point_degrees@ =~= pds);
        }
        let mut bounds: Vec<usize> = Vec::new();
        let mut i: usize = 0;
        while i < transition_constraints.len()
            invariant
                point_degrees@ == pds,
                pds == self.point_degrees(),
                self.degrees_fit(transition_constraints@),
                i <= transition_constraints@.len(),
                bounds@.len() == i,
                forall|k: int|
                    0 <= k < i ==> #[trigger] bounds@[k] == max_term_degree(transition_constraints@[k]@, pds),
            decreases transition_constraints@.len() - i,
        {
            let terms = transition_constraints[i].dictionary();
            let ghost tv = transition_constraints@[i as int]@;
            let mut best: usize = 0;
            let mut j: usize = 0;
            proof {
                assert(terms@.take(0) =~= Seq::<(Vec<usize>, FieldElement)>::empty());
                assert(term_views(terms@.take(0)) =~= Seq::<(Seq<usize>, FieldElement)>::empty());
            }
            while j < terms.len()
                invariant
                    point_degrees@ == pds,
                    pds == self.point_degrees(),
                    term_views(terms@) == tv,
                    tv == transition_constraints@[i as int]@,
                    self.degrees_fit(transition_constraints@),
                    0 <= i < transition_constraints@.len(),
                    j <= terms@.len(),
                    best == max_term_degree(tv.take(j as int), pds),
                decreases terms@.len() - j,
            {
                let exps = &terms[j].0;
                let n = if exps.len() <= point_degrees.len() {
                    exps.len()
                } else {
                    point_degrees.len()
                };
                let ghost e = exps@;
                proof {
                    assert(tv[j as int].0 == e);
                    assert(tv.len() == terms@.len());
                    assert(transition_constraints@[i as int]@[j as int].0 == e);
                    assert(0 <= j < transition_constraints@[i as int]@.len());
                    assert(term_degree(transition_constraints@[i as int]@[j as int].0, pds) <= usize::MAX);
                }
                let mut sum: usize = 0;
                let mut k: usize = 0;
                while k < n
                    invariant
                        point_degrees@ == pds,
                        e == exps@,
                        n <= e.len() && n <= pds.len(),
                        n == (if e.len() <= pds.len() { e.len() } else { pds.len() }),
                        term_degree(e, pds) <= usize::MAX,
                        k <= n,
                        sum == weighted_degree(e, pds, k as nat),
                    decreases n - k,
                {
                    proof {
                        lemma_weighted_degree_grows(e, pds, (k + 1) as nat, n as nat);
                        assert(pds[k as int] * e[k as int] >= 0) by (nonlinear_arith)
                            requires
                                pds[k as int] >= 0,
                                e[k as int] >= 0,
                        ;
                    }
                    sum = sum + point_degrees[k] * exps[k];
                    k = k + 1;
                }
                proof {
                    let tj = tv.take(j + 1);
                    assert(tj.drop_last() =~= tv.take(j as int));
                    assert(tj.last() == tv[j as int]);
                }
                if sum > best {
                    best = sum;
                }
                j = j + 1;
            }
            proof {
                assert(tv.take(j as int) =~= tv);
            }
            bounds.push(best);
            i = i + 1;
        }
        bounds
    }

    /// Returns the degree bound of each transition quotient: the
    /// constraint's bound less the degree of the transition zerofier.
    pub fn transition_quotient_degree_bounds(&self, transition_constraints: &[MPolynomial]) -> (bounds: Vec<usize>)
        requires
            self.trace_length_spec() >= 1,
            1 + 2 * self.num_registers_spec() <= usize::MAX,
            self.degrees_fit(transition_constraints@),
            forall|i: int|
                0 <= i < transition_constraints@.len() ==> max_term_degree(
                    #[trigger] transition_constraints@[i]@,
                    self.point_degrees(),
                ) >= self.trace_length_spec() - 1,
        ensures
            bounds@.len() == transition_constraints@.len(),
            forall|i: int|
                0 <= i < bounds@.len() ==> #[trigger] bounds@[i] == max_term_degree(
                    transition_constraints@[i]@,
                    self.point_degrees(),
                ) - (self.trace_length_spec() - 1),
    {
        let degrees = self.transition_degree_bounds(transition_constraints);
        let mut bounds: Vec<usize> = Vec::new();
        let mut i: usize = 0;
        while i < degrees.len()
            invariant
                self.cycle_count >= 1,
                degrees@.len() == transition_constraints@.len(),
                forall|k: int|
                    0 <= k < degrees@.len() ==> #[trigger] degrees@[k] == max_term_degree(
                        transition_constraints@[k]@,
                        self.point_degrees(),
                    ),
                forall|k: int|
                    0 <= k < transition_constraints@.len() ==> max_term_degree(
                        #[trigger] transition_constraints@[k]@,
                        self.point_degrees(),
                    ) >= self.trace_length_spec() - 1,
                i <= degrees@.len(),
                bounds@.len() == i,
                forall|k: int| 0 <= k < i ==> #[trigger] bounds@[k] == degrees@[k] - (self.cycle_count - 1),
            decreases degrees@.len() - i,
        {
            proof {
                assert(max_term_degree(transition_constraints@[i as int]@, self.point_degrees()) >= self.trace_length_spec() - 1);
            }
            bounds.push(degrees[i] - (self.cycle_count - 1));
            i = i + 1;
        }
        bounds
    }

    /// Returns the transition zerofier: `Π (x − omicron^i)` over the first
    /// `trace length − 1` points of the trace domain.
    pub fn transition_zerofier(&self) -> (z: Polynomial)
        requires
            1 <= self.trace_length_spec() <= self.omicron_domain_spec().len() + 1,
        ensures
            z@ == zerofier(self.omicron_domain_spec().take(self.trace_length_spec() - 1), self.field_spec()),
            z.wf(),
            z.field_spec() == self.field_spec(),
            z@.len() == self.trace_length_spec(),
            z@.last().value == 1,
            all_in_field(z@, self.field_spec()),
            forall|i: int|
                0 <= i < self.trace_length_spec() - 1 ==> #[trigger] poly_eval(z@, self.omicron_domain_spec()[i].value as int)
                    % (self.field_spec().p as int) == 0,
    {
        proof {
            use_type_invariant(self);
        }
        let domain = vstd::slice::slice_subrange(self.omicron_domain.as_slice(), 0, self.cycle_count - 1);
        proof {
            let n = self.omicron_domain@.len() as int;
            let e = self.expansion_factor as int;
            assert(n + 3 <= n * e) by (nonlinear_arith)
                requires
                    n >= 1,
                    e >= 4,
            ;
            assert(domain@ =~= self.omicron_domain@.take(self.cycle_count - 1));
            assert forall|i: int| 0 <= i < domain@.len() implies (#[trigger] domain@[i]).field == self.field && domain@[i].wf() by {
                assert(domain@[i] == self.omicron_domain@[i]);
            }
            lemma_zerofier_monic(domain@, self.field);
        }
        if domain.len() == 0 {
            let one = vec![self.field.one()];
            proof {
                lemma_small_mod(1, MAIN_PRIME as nat);
                assert(one@ =~= seq![self.field.element_of(1)]);
                assert(seq![self.field.element_of(1)].drop_last() =~= Seq::<FieldElement>::empty());
            }
            return Polynomial::new(one);
        }
        proof {
            assert(domain@[0] == self.omicron_domain@[0]);
            assert(points_in_field(domain@, domain@[0].field));
        }
        let z = Polynomial::zerofier_domain(domain);
        proof {
            assert forall|i: int| 0 <= i < self.cycle_count - 1 implies #[trigger] poly_eval(z@, self.omicron_domain@[i].value as int)
                % (self.field.p as int) == 0 by {
                assert(domain@[i] == self.omicron_domain@[i]);
            }
        }
        z
    }

    /// Returns the boundary zerofier of each register.
    pub fn boundary_zerofiers(&self, boundary: &[BoundaryConstraint]) -> (zerofiers: Vec<Polynomial>)
        requires
            boundary@.len() + 3 <= usize::MAX,
        ensures
            zerofiers@.len() == self.num_registers_spec(),
            forall|r: int|
                0 <= r < zerofiers@.len() ==> (#[trigger] zerofiers@[r])@ == boundary_zerofier(boundary@, r as nat, self.omicron_spec())
                    && zerofiers@[r].wf() && zerofiers@[r].field_spec() == self.field_spec()
                    && zerofiers@[r]@.len() == boundary_points(boundary@, r as nat, self.omicron_spec()).len() + 1
                    && zerofiers@[r]@.last().value == 1 && all_in_field(zerofiers@[r]@, self.field_spec()),
    {
        proof {
            use_type_invariant(self);
        }
        let mut zerofiers: Vec<Polynomial> = Vec::new();
        let mut register: usize = 0;
        while register < self.num_registers
            invariant
                self.field.p == MAIN_PRIME,
                self.omicron.wf() && self.omicron.field == self.field,
                boundary@.len() + 3 <= usize::MAX,
                register <= self.num_registers,
                zerofiers@.len() == register,
                forall|r: int|
                    0 <= r < register ==> (#[trigger] zerofiers@[r])@ == boundary_zerofier(boundary@, r as nat, self.omicron)
                        && zerofiers@[r].wf() && zerofiers@[r].field_spec() == self.field
                        && zerofiers@[r]@.len() == boundary_points(boundary@, r as nat, self.omicron).len() + 1
                        && zerofiers@[r]@.last().value == 1 && all_in_field(zerofiers@[r]@, self.field),
            decreases self.num_registers - register,
        {
            let (points, values) = register_boundary(boundary, register, self.omicron);
            proof {
                lemma_boundary_lengths(boundary@, register as nat, self.omicron);
            }
            let z = if points.len() == 0 {
                let one = vec![self.field.one()];
                proof {
                    lemma_small_mod(1, MAIN_PRIME as nat);
                    assert(one@ =~= seq![self.field.element_of(1)]);
                    assert(seq![self.field.element_of(1)].drop_last() =~= Seq::<FieldElement>::empty());
                }
                Polynomial::new(one)
            } else {
                proof {
                    assert forall|i: int| 0 <= i < points@.len() implies (#[trigger] points@[i]).field == points@[0].field
                        && points@[i].wf() by {
                        lemma_boundary_points_field(boundary@, register as nat, self.omicron, i);
                        lemma_boundary_points_field(boundary@, register as nat, self.omicron, 0);
                    }
                    lemma_boundary_points_field(boundary@, register as nat, self.omicron, 0);
                    lemma_zerofier_monic(points@, self.field);
                }
                Polynomial::zerofier_domain(points.as_slice())
            };
            zerofiers.push(z);
            register = register + 1;
        }
        zerofiers
    }

    /// Returns the boundary interpolant of each register: the polynomial
    /// of least degree through its boundary points and values (zero when
    /// there are none).
    pub fn boundary_interpolants(&self, boundary: &[BoundaryConstraint]) -> (interpolants: Vec<Polynomial>)
        requires
            boundary@.len() + 3 <= usize::MAX,
            forall|i: int| 0 <= i < boundary@.len() ==> (#[trigger] boundary@[i]).2.wf() && boundary@[i].2.field == self.field_spec(),
            forall|r: nat| r < self.num_registers_spec() ==> distinct_points(#[trigger] boundary_points(boundary@, r, self.omicron_spec())),
        ensures
            interpolants@.len() == self.num_registers_spec(),
            forall|r: int|
                0 <= r < interpolants@.len() ==> (#[trigger] interpolants@[r]).wf() && (interpolants@[r]@.len() > 0
                    ==> interpolants@[r].field_spec() == self.field_spec()) && interpolants@[r]@.len()
                    <= boundary_points(boundary@, r as nat, self.omicron_spec()).len(),
            forall|r: int|
                0 <= r < interpolants@.len() ==> interpolates_boundary(
                    (#[trigger] interpolants@[r])@,
                    boundary@,
                    r as nat,
                    self.omicron_spec(),
                ),
            forall|r: int|
                0 <= r < interpolants@.len() ==> (#[trigger] interpolants@[r])@ == boundary_interpolant(
                    boundary@,
                    r as nat,
                    self.omicron_spec(),
                ),
    {
        proof {
            use_type_invariant(self);
        }
        let mut interpolants: Vec<Polynomial> = Vec::new();
        let mut register: usize = 0;
        while register < self.num_registers
            invariant
                self.field.p == MAIN_PRIME,
                self.omicron.wf() && self.omicron.field == self.field,
                boundary@.len() + 3 <= usize::MAX,
                forall|i: int| 0 <= i < boundary@.len() ==> (#[trigger] boundary@[i]).2.wf() && boundary@[i].2.field == self.field_spec(),
                forall|r: nat| r < self.num_registers_spec() ==> distinct_points(#[trigger] boundary_points(boundary@, r, self.omicron_spec())),
                register <= self.num_registers,
                interpolants@.len() == register,
                forall|r: int|
                    0 <= r < register ==> (#[trigger] interpolants@[r]).wf() && (interpolants@[r]@.len() > 0
                        ==> interpolants@[r].field_spec() == self.field) && interpolants@[r]@.len()
                        <= boundary_points(boundary@, r as nat, self.omicron).len(),
                forall|r: int|
                    0 <= r < register ==> interpolates_boundary((#[trigger] interpolants@[r])@, boundary@, r as nat, self.omicron),
                forall|r: int|
                    0 <= r < register ==> (#[trigger] interpolants@[r])@ == boundary_interpolant(boundary@, r as nat, self.omicron),
            decreases self.num_registers - register,
        {
            let (points, values) = register_boundary(boundary, register, self.omicron);
            proof {
                lemma_boundary_lengths(boundary@, register as nat, self.omicron);
                assert((register as nat) < self.num_registers_spec());
                assert(distinct_points(boundary_points(boundary@, register as nat, self.omicron_spec())));
            }
            let q = if points.len() == 0 {
                let empty: Vec<FieldElement> = Vec::new();
                proof {
                    assert(empty@ =~= Seq::<FieldElement>::empty());
                }
                Polynomial::new(empty)
            } else {
                proof {
                    assert forall|i: int| 0 <= i < points@.len() implies (#[trigger] points@[i]).field == points@[0].field
                        && points@[i].wf() by {
                        lemma_boundary_points_field(boundary@, register as nat, self.omicron, i);
                        lemma_boundary_points_field(boundary@, register as nat, self.omicron, 0);
                    }
                    lemma_boundary_points_field(boundary@, register as nat, self.omicron, 0);
                    assert forall|i: int| 0 <= i < values@.len() implies (#[trigger] values@[i]).field == points@[0].field
                        && values@[i].wf() by {
                        lemma_boundary_values_field(boundary@, register as nat, i, self.field);
                    }
                }
                Polynomial::interpolate_domain(points.as_slice(), values.as_slice())
            };
            interpolants.push(q);
            register = register + 1;
        }
        interpolants
    }

    /// Returns the degree bound of each boundary quotient: the randomized
    /// trace degree less the degree of the register's boundary zerofier.
    pub fn boundary_quotient_degree_bounds(&self, randomized_trace_length: usize, boundary: &[BoundaryConstraint]) -> (bounds: Vec<usize>)
        requires
            boundary@.len() + 3 <= usize::MAX,
            forall|r: nat| r < self.num_registers_spec() ==> (#[trigger] boundary_points(boundary@, r, self.omicron_spec())).len() < randomized_trace_length,
        ensures
            bounds@.len() == self.num_registers_spec(),
            forall|r: int|
                0 <= r < bounds@.len() ==> #[trigger] bounds@[r] == randomized_trace_length - 1 - (if boundary_zerofier(boundary@, r as nat, self.omicron_spec()).len() == 0 {
                    0
                } else {
                    boundary_zerofier(boundary@, r as nat, self.omicron_spec()).len() - 1
                }),
    {
        let zerofiers = self.boundary_zerofiers(boundary);
        let mut bounds: Vec<usize> = Vec::new();
        let mut r: usize = 0;
        while r < zerofiers.len()
            invariant
                zerofiers@.len() == self.num_registers_spec(),
                forall|k: int|
                    0 <= k < zerofiers@.len() ==> (#[trigger] zerofiers@[k])@ == boundary_zerofier(boundary@, k as nat, self.omicron_spec())
                        && zerofiers@[k]@.len() <= boundary_points(boundary@, k as nat, self.omicron_spec()).len() + 1,
                forall|k: nat| k < self.num_registers_spec() ==> (#[trigger] boundary_points(boundary@, k, self.omicron_spec())).len() < randomized_trace_length,
                r <= zerofiers@.len(),
                bounds@.len() == r,
                forall|k: int|
                    0 <= k < r ==> #[trigger] bounds@[k] == randomized_trace_length - 1 - (if zerofiers@[k]@.len() == 0 {
                        0
                    } else {
                        zerofiers@[k]@.len() - 1
                    }),
            decreases zerofiers@.len() - r,
        {
            let len = zerofiers[r].coefficients().len();
            proof {
                assert(boundary_points(boundary@, r as nat, self.omicron_spec()).len() < randomized_trace_length);
                assert(zerofiers@[r as int]@.len() <= boundary_points(boundary@, r as nat, self.omicron_spec()).len() + 1);
            }
            let degree: usize = if len == 0 {
                0
            } else {
                len - 1
            };
            bounds.push(randomized_trace_length - 1 - degree);
            r = r + 1;
        }
        bounds
    }

    /// Samples random linear combination weights from transcript
    /// randomness: weight `i` is the BLAKE2b-512 digest of the randomness
    /// followed by `i` zero bytes, read as a number and reduced into the
    /// field.
    pub fn sample_weights(&self, number: usize, randomness: &[u8]) -> (weights: Vec<FieldElement>)
        ensures
            weights@.len() == number,
            forall|i: int|
                0 <= i < number ==> #[trigger] weights@[i] == self.field_spec().element_of(
                    bytes_to_nat(blake2b512_digest(randomness@ + Seq::new(i as nat, |k: int| 0u8))) as int,
                ),
            forall|i: int| 0 <= i < number ==> (#[trigger] weights@[i]).wf(),
    {
        proof {
            use_type_invariant(self);
        }
        let mut weights: Vec<FieldElement> = Vec::new();
        let mut i: usize = 0;
        while i < number
            invariant
                self.field.p == MAIN_PRIME,
                i <= number,
                weights@.len() == i,
                forall|k: int|
                    0 <= k < i ==> #[trigger] weights@[k] == self.field.element_of(
                        bytes_to_nat(blake2b512_digest(randomness@ + Seq::new(k as nat, |j: int| 0u8))) as int,
                    ),
                forall|k: int| 0 <= k < i ==> (#[trigger] weights@[k]).wf(),
            decreases number - i,
        {
            let zeros = zero_bytes(i);
            let input = concat_bytes(randomness, zeros.as_slice());
            let digest = blake2b512(input.as_slice());
            weights.push(self.field.sample(digest.as_slice()));
            i = i + 1;
        }
        weights
    }
}

/// The points of a register's boundary constraints are elements of the
/// field of omicron.
proof fn lemma_boundary_points_field(b: Seq<BoundaryConstraint>, register: nat, omicron: FieldElement, i: int)
    requires
        omicron.field.p > 0,
        0 <= i < boundary_points(b, register, omicron).len(),
    ensures
        boundary_points(b, register, omicron)[i].field == omicron.field,
        boundary_points(b, register, omicron)[i].wf(),
    decreases b.len(),
{
    if b.len() > 0 {
        let rest = boundary_points(b.drop_last(), register, omicron);
        if b.last().1 == register && i == rest.len() {
            lemma_mod_bound(pow(omicron.value as int, b.last().0 as nat), omicron.field.p as int);
        } else {
            lemma_boundary_points_field(b.drop_last(), register, omicron, i);
        }
    }
}

/// The values of a register's boundary constraints are among the values
/// of all constraints.
proof fn lemma_boundary_values_field(b: Seq<BoundaryConstraint>, register: nat, i: int, f: Field)
    requires
        0 <= i < boundary_values(b, register).len(),
        forall|k: int| 0 <= k < b.len() ==> (#[trigger] b[k]).2.wf() && b[k].2.field == f,
    ensures
        boundary_values(b, register)[i].wf(),
        boundary_values(b, register)[i].field == f,
    decreases b.len(),
{
    if b.len() > 0 {
        let rest = boundary_values(b.drop_last(), register);
        assert(b.last() == b[b.len() - 1]);
        if !(b.last().1 == register && i == rest.len()) {
            assert forall|k: int| 0 <= k < b.drop_last().len() implies (#[trigger] b.drop_last()[k]).2.wf() && b.drop_last()[k].2.field == f by {
                assert(b.drop_last()[k] == b[k]);
            }
            lemma_boundary_values_field(b.drop_last(), register, i, f);
        }
    }
}


/// The largest transition quotient degree bound: the largest constraint
/// degree less `t - 1` (zero without constraints).
pub open spec fn max_quotient_degree(cs: Seq<MPolynomial>, pd: Seq<usize>, t: nat) -> int
    decreases cs.len(),
{
    if cs.len() == 0 {
        0
    } else {
        let d = max_term_degree(cs.last()@, pd) - (t - 1);
        let m = max_quotient_degree(cs.drop_last(), pd, t);
        if d > m {
            d
        } else {
            m
        }
    }
}

/// `2^b` as a `usize`.
fn pow2_usize(b: u32) -> (r: usize)
    requires
        pow2(b as nat) <= usize::MAX,
    ensures
        r == pow2(b as nat),
{
    let mut r: usize = 1;
    let mut k: u32 = 0;
    proof {
        lemma2_to64();
    }
    while k < b
        invariant
            k <= b,
            r == pow2(k as nat),
            pow2(b as nat) <= usize::MAX,
        decreases b - k,
    {
        proof {
            lemma_pow2_unfold((k + 1) as nat);
            if k + 1 < b {
                lemma_pow2_strictly_increases((k + 1) as nat, b as nat);
            }
        }
        r = r * 2;
        k = k + 1;
    }
    r
}

impl Stark {
    /// The degree of the combination polynomial: one less than the least
    /// power of two above the largest transition quotient degree bound
    /// (zero when that bound is zero).
    pub open spec fn max_degree_spec(&self, cs: Seq<MPolynomial>) -> int {
        let m = max_quotient_degree(cs, self.point_degrees(), self.trace_length_spec());
        if m == 0 {
            0
        } else {
            pow2(bits_of(m as nat)) - 1
        }
    }

    /// Returns the degree used for the nonlinear combination polynomial.
    pub fn max_degree(&self, transition_constraints: &[MPolynomial]) -> (d: usize)
        requires
            self.trace_length_spec() >= 1,
            1 + 2 * self.num_registers_spec() <= usize::MAX,
            self.degrees_fit(transition_constraints@),
            forall|i: int|
                0 <= i < transition_constraints@.len() ==> max_term_degree(
                    #[trigger] transition_constraints@[i]@,
                    self.point_degrees(),
                ) >= self.trace_length_spec() - 1,
            pow2(bits_of(max_quotient_degree(transition_constraints@, self.point_degrees(), self.trace_length_spec()) as nat)) <= usize::MAX,
        ensures
            d == self.max_degree_spec(transition_constraints@),
    {
        let bounds = self.transition_quotient_degree_bounds(transition_constraints);
        let ghost pd = self.point_degrees();
        let ghost t = self.trace_length_spec();
        let mut m: usize = 0;
        let mut i: usize = 0;
        proof {
            assert(transition_constraints@.take(0) =~= Seq::<MPolynomial>::empty());
        }
        while i < bounds.len()
            invariant
                bounds@.len() == transition_constraints@.len(),
                forall|k: int|
                    0 <= k < bounds@.len() ==> #[trigger] bounds@[k] == max_term_degree(
                        transition_constraints@[k]@,
                        pd,
                    ) - (t - 1),
                i <= bounds@.len(),
                m == max_quotient_degree(transition_constraints@.take(i as int), pd, t),
            decreases bounds@.len() - i,
        {
            proof {
                let ti = transition_constraints@.take(i + 1);
                assert(ti.drop_last() =~= transition_constraints@.take(i as int));
                assert(ti.last() == transition_constraints@[i as int]);
            }
            if bounds[i] > m {
                m = bounds[i];
            }
            i = i + 1;
        }
        proof {
            assert(transition_constraints@.take(i as int) =~= transition_constraints@);
        }
        if m == 0 {
            0
        } else {
            let b = bit_length(m);
            proof {
                lemma_pow2_pos(b as nat);
            }
            pow2_usize(b) - 1
        }
    }
}

} // verus!
