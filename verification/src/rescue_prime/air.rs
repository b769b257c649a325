//! The arithmetization of Rescue-Prime: round-constant polynomials,
//! transition constraints and boundary constraints.

use vstd::prelude::*;
use vstd::arithmetic::power::*;

use crate::field::{Field, FieldElement, MAIN_PRIME};
use crate::polynomial::multivariate::{exponent_at, exponents_bounded, max_exponent, monomial_upto, mp_eval, mp_in_field, MPolynomial};
use crate::polynomial::multivariate_eval::{
    lemma_add_congruent2, lemma_bounded_fit, lemma_keys_bounded, lemma_max_exponent, lemma_max_exponent_bounded,
    lemma_mul_congruent, lemma_pow_congruent, lemma_product_bounded,
};
use crate::polynomial::{differences_invertible, distinct_points, points_in_field, poly_eval, Polynomial};
use crate::rescue_prime::{elements_over, square_over, RescuePrime};
use crate::stark::params::BoundaryConstraint;
use crate::stark::prover::powers;

verus! {

/// A polynomial over `f` whose exponents are at most `bound`.
pub open spec fn mp_over(q: MPolynomial, f: Field, bound: int) -> bool {
    mp_in_field(q@, f) && exponents_bounded(q@, bound)
}

/// Raising the bound keeps a polynomial within it.
proof fn lemma_raise_bound(q: MPolynomial, f: Field, b1: int, b2: int)
    requires
        mp_over(q, f, b1),
        b1 <= b2,
    ensures
        mp_over(q, f, b2),
{
    assert forall|i: int, t: int| 0 <= i < q@.len() implies exponent_at(q@[i].0, t) <= b2 by {
        assert(exponent_at(q@[i].0, t) <= b1);
    }
}

/// `a + b`.
fn mp_plus(a: MPolynomial, b: MPolynomial, f: Field, bound: usize) -> (r: MPolynomial)
    requires
        mp_over(a, f, bound as int),
        mp_over(b, f, bound as int),
    ensures
        mp_over(r, f, bound as int),
        forall|x: Seq<int>| #[trigger] mp_eval(r@, x) % (f.p as int) == (mp_eval(a@, x) + mp_eval(b@, x)) % (f.p as int),
{
    let ghost av = a@;
    let ghost bv = b@;
    let r = a + b;
    proof {
        lemma_keys_bounded(av, bv, r@, bound as int);
        if av.len() == 0 {
            assert forall|x: Seq<int>| #[trigger] mp_eval(r@, x) % (f.p as int) == (mp_eval(av, x) + mp_eval(bv, x)) % (f.p as int) by {
                assert(mp_eval(av, x) == 0);
            }
        }
    }
    r
}

/// `a - b`.
fn mp_minus(a: MPolynomial, b: MPolynomial, f: Field, bound: usize) -> (r: MPolynomial)
    requires
        mp_over(a, f, bound as int),
        mp_over(b, f, bound as int),
    ensures
        mp_over(r, f, bound as int),
        forall|x: Seq<int>| #[trigger] mp_eval(r@, x) % (f.p as int) == (mp_eval(a@, x) - mp_eval(b@, x)) % (f.p as int),
{
    let ghost av = a@;
    let ghost bv = b@;
    let r = a - b;
    proof {
        lemma_keys_bounded(av, bv, r@, bound as int);
        if av.len() == 0 {
            assert forall|x: Seq<int>| #[trigger] mp_eval(r@, x) % (f.p as int) == (mp_eval(av, x) - mp_eval(bv, x)) % (f.p as int) by {
                assert(mp_eval(av, x) == 0);
                if bv.len() == 0 {
                    assert(mp_eval(r@, x) == 0);
                    assert(mp_eval(bv, x) == 0);
                }
            }
        }
    }
    r
}

/// `a · b`.
fn mp_times(a: MPolynomial, b: MPolynomial, f: Field, ba: usize, bb: usize) -> (r: MPolynomial)
    requires
        mp_over(a, f, ba as int),
        mp_over(b, f, bb as int),
        ba + bb <= usize::MAX,
    ensures
        mp_over(r, f, ba + bb),
        forall|x: Seq<int>| #[trigger] mp_eval(r@, x) % (f.p as int) == (mp_eval(a@, x) * mp_eval(b@, x)) % (f.p as int),
{
    let ghost av = a@;
    let ghost bv = b@;
    proof {
        lemma_bounded_fit(av, bv, ba as int, bb as int);
    }
    let r = a * b;
    proof {
        lemma_product_bounded(av, bv, r@, ba as int, bb as int);
        if av.len() == 0 || bv.len() == 0 {
            assert forall|x: Seq<int>| #[trigger] mp_eval(r@, x) % (f.p as int) == (mp_eval(av, x) * mp_eval(bv, x)) % (f.p as int) by {
                assert(mp_eval(r@, x) == 0);
                if av.len() == 0 {
                    assert(mp_eval(av, x) == 0);
                } else {
                    assert(mp_eval(bv, x) == 0);
                }
            }
        }
    }
    r
}

/// `a^e`.
fn mp_power(a: &MPolynomial, e: u64, f: Field, bound: usize) -> (r: MPolynomial)
    requires
        mp_over(*a, f, bound as int),
        bound * e <= usize::MAX,
        e >= 1,
    ensures
        mp_over(r, f, bound * e),
        forall|x: Seq<int>| #[trigger] mp_eval(r@, x) % (f.p as int) == pow(mp_eval(a@, x), e as nat) % (f.p as int),
{
    proof {
        lemma_max_exponent_bounded(a@, bound as int);
        lemma_max_exponent(a@);
        let m = max_exponent(a@);
        assert(m * e <= bound * e) by (nonlinear_arith)
            requires
                0 <= m <= bound,
                e >= 0,
        ;
    }
    let r = a.pow(e);
    proof {
        if a@.len() == 0 {
            assert forall|x: Seq<int>| #[trigger] mp_eval(r@, x) % (f.p as int) == pow(mp_eval(a@, x), e as nat) % (f.p as int) by {
                assert(mp_eval(a@, x) == 0);
                assert(mp_eval(r@, x) == 0);
                lemma0_pow(e as nat);
            }
        }
        let m = max_exponent(a@);
        assert forall|i: int, t: int| 0 <= i < r@.len() implies exponent_at(r@[i].0, t) <= bound * e by {
            assert(exponent_at(r@[i].0, t) <= m * e);
        }
    }
    r
}

/// The constant `c`.
fn mp_constant(c: FieldElement) -> (r: MPolynomial)
    requires
        c.wf(),
    ensures
        mp_over(r, c.field, 0),
        forall|x: Seq<int>| #[trigger] mp_eval(r@, x) == c.value,
{
    let r = MPolynomial::constant(c);
    proof {
        assert forall|x: Seq<int>| #[trigger] mp_eval(r@, x) == c.value by {
            if c.value != 0 {
                assert(r@.drop_last() =~= Seq::<(Seq<usize>, FieldElement)>::empty());
                assert(mp_eval(r@.drop_last(), x) == 0);
                assert(monomial_upto(Seq::<usize>::empty(), x, 0) == 1);
                assert(crate::polynomial::multivariate::monomial_value(Seq::<usize>::empty(), x) == 1);
                assert(r@.last() == (Seq::<usize>::empty(), c));
                assert(mp_eval(r@, x) == mp_eval(r@.drop_last(), x) + c.value * 1);
            }
        }
        assert forall|i: int, t: int| 0 <= i < r@.len() implies exponent_at(r@[i].0, t) <= 0 by {
            assert(r@[i].0 == Seq::<usize>::empty());
        }
    }
    r
}

/// The round constants added to state entry `column` after the first
/// (`half` 0) or the second (`half` 1) half-round, one per round.
pub open spec fn column_constants(constants: Seq<FieldElement>, column: int, half: int) -> Seq<FieldElement> {
    Seq::new(27, |r: int| constants[4 * r + 2 * half + column])
}

/// `m`, read as a polynomial in the first variable, is the polynomial with
/// coefficients `q`; `q` has at most 27 coefficients and, where the
/// differences of the first 27 powers of `omicron` are units, takes the
/// value `values[r]` at `omicron^r`.
pub open spec fn round_curve(m: MPolynomial, q: Seq<FieldElement>, omicron: FieldElement, values: Seq<FieldElement>) -> bool {
    let p = omicron.field.p as int;
    &&& q.len() <= 27
    &&& forall|x: Seq<int>| #[trigger] mp_eval(m@, x) % p == poly_eval(q, x[0]) % p
    &&& differences_invertible(powers(omicron, 27), omicron.field.p as nat) ==> forall|r: int|
        0 <= r < 27 ==> #[trigger] poly_eval(q, powers(omicron, 27)[r].value as int) % p == values[r].value
}

/// Subtracting congruent values keeps the difference congruent.
pub(crate) proof fn lemma_sub_congruent(u1: int, v1: int, u2: int, v2: int, p: int)
    requires
        p > 0,
        u1 % p == v1 % p,
        u2 % p == v2 % p,
    ensures
        (u1 - u2) % p == (v1 - v2) % p,
{
    vstd::arithmetic::div_mod::lemma_sub_mod_noop(u1, u2, p);
    vstd::arithmetic::div_mod::lemma_sub_mod_noop(v1, v2, p);
}

/// A lifted interpolant is a round curve of the values it interpolates.
proof fn lemma_lifted_curve(m: &MPolynomial, q: &Polynomial, omicron: FieldElement, values: Seq<FieldElement>)
    requires
        q.wf(),
        q@.len() <= 27,
        omicron.field.p > 1,
        q@.len() > 0 ==> q.field_spec() == omicron.field,
        q@.len() == 0 ==> m@.len() == 0,
        q@.len() > 0 ==> forall|x: Seq<int>| #[trigger] mp_eval(m@, x) % (q.field_spec().p as int) == poly_eval(q@, x[0]) % (
        q.field_spec().p as int),
        differences_invertible(powers(omicron, 27), omicron.field.p as nat) ==> forall|k: int|
            0 <= k < 27 ==> #[trigger] poly_eval(q@, powers(omicron, 27)[k].value as int) % (omicron.field.p as int)
                == values[k].value,
    ensures
        round_curve(*m, q@, omicron, values),
{
    if q@.len() == 0 {
        assert forall|x: Seq<int>| #[trigger] mp_eval(m@, x) % (omicron.field.p as int) == poly_eval(q@, x[0]) % (omicron.field.p as int) by {
            assert(mp_eval(m@, x) == 0);
            assert(poly_eval(q@, x[0]) == 0);
        }
    }
}

/// `Σ_{j<n} row[j] · x_{1+j}^3`: the first half-round's mix of the
/// cubed state entries, over the first `n` columns.
pub open spec fn forward_upto(row: Seq<FieldElement>, x: Seq<int>, n: int) -> int
    decreases n,
{
    if n <= 0 {
        0
    } else {
        forward_upto(row, x, n - 1) + row[n - 1].value * pow(x[n], 3)
    }
}

/// `Σ_{j<n} row[j] · (x_{3+j} − c2[j])`: the inverse mix of the next state
/// less the second round constants, over the first `n` columns.
pub open spec fn backward_upto(row: Seq<FieldElement>, x: Seq<int>, c2: Seq<int>, n: int) -> int
    decreases n,
{
    if n <= 0 {
        0
    } else {
        backward_upto(row, x, c2, n - 1) + row[n - 1].value * (x[n + 2] - c2[n - 1])
    }
}

impl RescuePrime {
    /// The value at `x = (cycle, state, next state)` of the transition
    /// constraint of state entry `i`, with the round's constants `c1`, `c2`
    /// given as values: `Σ_j MDS[i][j] x_{1+j}^3 + c1[i] −
    /// (Σ_j MDS⁻¹[i][j] (x_{3+j} − c2[j]))^3`.
    pub open spec fn air_value(&self, i: int, x: Seq<int>, c1: Seq<int>, c2: Seq<int>) -> int {
        forward_upto(self.mds_spec()[i], x, 2) + c1[i] - pow(backward_upto(self.mds_inv_spec()[i], x, c2, 2), 3)
    }

    /// `cs` are the transition constraints of Rescue-Prime for `omicron`:
    /// two polynomials whose value at every point is, modulo the field's
    /// modulus, [`RescuePrime::air_value`] with the round constants read
    /// from round curves.
    pub open spec fn is_rescue_air(&self, cs: Seq<MPolynomial>, omicron: FieldElement) -> bool {
        &&& cs.len() == 2
        &&& exists|first: Seq<MPolynomial>, second: Seq<MPolynomial>, q1: Seq<Seq<FieldElement>>, q2: Seq<Seq<FieldElement>>|
            #![trigger self.round_curves(first, second, q1, q2, omicron)]
            self.round_curves(first, second, q1, q2, omicron) && forall|i: int, x: Seq<int>|
                0 <= i < 2 ==> #[trigger] mp_eval(cs[i]@, x) % (self.field_spec().p as int) == self.air_value(
                    i,
                    x,
                    Seq::new(2, |c: int| poly_eval(q1[c], x[0])),
                    Seq::new(2, |c: int| poly_eval(q2[c], x[0])),
                ) % (self.field_spec().p as int)
    }

    /// The boundary constraints of hashing to `output`: the capacity entry
    /// starts at zero, and the first entry ends at the output.
    pub open spec fn boundary_spec(&self, output: FieldElement) -> Seq<BoundaryConstraint> {
        seq![(0usize, 1usize, self.field_spec().element_of(0)), (27usize, 0usize, output)]
    }

    /// The round-constant polynomials `first`, `second` are round curves,
    /// with coefficients `q1`, `q2`, of the constants of each state entry
    /// after the first and after the second half-round.
    pub open spec fn round_curves(
        &self,
        first: Seq<MPolynomial>,
        second: Seq<MPolynomial>,
        q1: Seq<Seq<FieldElement>>,
        q2: Seq<Seq<FieldElement>>,
        omicron: FieldElement,
    ) -> bool {
        &&& first.len() == 2
        &&& second.len() == 2
        &&& q1.len() == 2
        &&& q2.len() == 2
        &&& forall|c: int|
            0 <= c < 2 ==> round_curve(#[trigger] first[c], q1[c], omicron, column_constants(self.constants_spec(), c, 0))
                && round_curve(second[c], q2[c], omicron, column_constants(self.constants_spec(), c, 1))
    }
}

/// The round constants of one state entry and half-round, one per round.
fn column_values(constants: &Vec<FieldElement>, column: usize, half: usize) -> (v: Vec<FieldElement>)
    requires
        constants@.len() == 108,
        column < 2,
        half < 2,
    ensures
        v@ == column_constants(constants@, column as int, half as int),
{
    let mut v: Vec<FieldElement> = Vec::new();
    let mut round: usize = 0;
    while round < 27
        invariant
            round <= 27,
            column < 2,
            half < 2,
            constants@.len() == 108,
            v@ == column_constants(constants@, column as int, half as int).take(round as int),
        decreases 27 - round,
    {
        v.push(constants[4 * round + 2 * half + column]);
        round = round + 1;
        proof {
            assert(v@ =~= column_constants(constants@, column as int, half as int).take(round as int));
        }
    }
    proof {
        assert(v@ =~= column_constants(constants@, column as int, half as int));
    }
    v
}

/// The round curve through `values` at the first 27 powers of `omicron`:
/// the interpolant, lifted to the first variable.
fn constant_curve(domain: &Vec<FieldElement>, values: &Vec<FieldElement>, omicron: &FieldElement, f: Field) -> (l: MPolynomial)
    requires
        f.p == MAIN_PRIME,
        omicron.field == f,
        domain@ == powers(*omicron, 27),
        domain@.len() == 27,
        points_in_field(domain@, f),
        domain@[0].field == f,
        distinct_points(domain@),
        values@.len() == 27,
        elements_over(values@, f),
    ensures
        mp_over(l, f, 27),
        exists|q: Seq<FieldElement>| round_curve(l, q, *omicron, values@),
{
    let p = Polynomial::interpolate_domain(domain.as_slice(), values.as_slice());
    let l = MPolynomial::lift(&p, 0);
    proof {
        lemma_raise_bound(l, f, p@.len() as int, 27);
        lemma_lifted_curve(&l, &p, *omicron, values@);
    }
    l
}

impl RescuePrime {
    /// Interpolates, for each state entry, the round constants added after
    /// the first half-round (and, second, after the second half-round)
    /// over the first 27 powers of `omicron`, as polynomials in the first
    /// variable.
    pub fn round_constants_polynomials(&self, omicron: &FieldElement) -> (r: (Vec<MPolynomial>, Vec<MPolynomial>))
        requires
            omicron.wf(),
            omicron.field == self.field_spec(),
            distinct_points(powers(*omicron, 27)),
        ensures
            r.0@.len() == 2,
            r.1@.len() == 2,
            forall|c: int| 0 <= c < 2 ==> mp_over(#[trigger] r.0@[c], self.field_spec(), 27),
            forall|c: int| 0 <= c < 2 ==> mp_over(#[trigger] r.1@[c], self.field_spec(), 27),
            exists|q1: Seq<Seq<FieldElement>>, q2: Seq<Seq<FieldElement>>|
                #![trigger self.round_curves(r.0@, r.1@, q1, q2, *omicron)]
                self.round_curves(r.0@, r.1@, q1, q2, *omicron),
    {
        proof {
            use_type_invariant(self);
            self.lemma_inv();
        }
        let f = self.field_of();
        let constants = self.constants();
        let mut domain: Vec<FieldElement> = Vec::new();
        let mut k: usize = 0;
        while k < 27
            invariant
                k <= 27,
                omicron.wf(),
                omicron.field == f,
                f.p == MAIN_PRIME,
                domain@ =~= powers(*omicron, 27).take(k as int),
            decreases 27 - k,
        {
            domain.push(omicron.pow(k as u64));
            k = k + 1;
            proof {
                assert(domain@ =~= powers(*omicron, 27).take(k as int));
            }
        }
        proof {
            assert(domain@ =~= powers(*omicron, 27));
            assert forall|j: int| 0 <= j < domain@.len() implies (#[trigger] domain@[j]).field == domain@[0].field
                && domain@[j].wf() by {
                vstd::arithmetic::div_mod::lemma_mod_bound(pow(omicron.value as int, j as nat), MAIN_PRIME as int);
                vstd::arithmetic::div_mod::lemma_mod_bound(pow(omicron.value as int, 0), MAIN_PRIME as int);
            }
        }
        let mut first: Vec<MPolynomial> = Vec::new();
        let mut second: Vec<MPolynomial> = Vec::new();
        let ghost mut q1: Seq<Seq<FieldElement>> = Seq::empty();
        let ghost mut q2: Seq<Seq<FieldElement>> = Seq::empty();
        let mut column: usize = 0;
        while column < 2
            invariant
                column <= 2,
                f == self.field_spec(),
                f.p == MAIN_PRIME,
                constants@ == self.constants_spec(),
                constants@.len() == 108,
                elements_over(constants@, f),
                domain@.len() == 27,
                points_in_field(domain@, domain@[0].field),
                domain@[0].field == f,
                distinct_points(domain@),
                first@.len() == column,
                second@.len() == column,
                forall|c: int| 0 <= c < column ==> mp_over(#[trigger] first@[c], f, 27),
                forall|c: int| 0 <= c < column ==> mp_over(#[trigger] second@[c], f, 27),
                domain@ == powers(*omicron, 27),
                omicron.field == f,
                q1.len() == column,
                q2.len() == column,
                forall|c: int|
                    0 <= c < column ==> round_curve(#[trigger] first@[c], q1[c], *omicron, column_constants(constants@, c, 0))
                        && round_curve(second@[c], q2[c], *omicron, column_constants(constants@, c, 1)),
            decreases 2 - column,
        {
            let values_first = column_values(constants, column, 0);
            let values_second = column_values(constants, column, 1);
            let l1 = constant_curve(&domain, &values_first, omicron, f);
            let l2 = constant_curve(&domain, &values_second, omicron, f);
            let ghost c1 = choose|q: Seq<FieldElement>| round_curve(l1, q, *omicron, values_first@);
            let ghost c2 = choose|q: Seq<FieldElement>| round_curve(l2, q, *omicron, values_second@);
            let ghost old_first = first@;
            let ghost old_second = second@;
            first.push(l1);
            second.push(l2);
            proof {
                q1 = q1.push(c1);
                q2 = q2.push(c2);
                assert forall|c: int|
                    0 <= c < column + 1 implies round_curve(#[trigger] first@[c], q1[c], *omicron, column_constants(constants@, c, 0))
                        && round_curve(second@[c], q2[c], *omicron, column_constants(constants@, c, 1)) by {
                    if c < column {
                        assert(first@[c] == old_first[c]);
                        assert(second@[c] == old_second[c]);
                    }
                }
                assert forall|c: int| 0 <= c < column + 1 implies mp_over(#[trigger] first@[c], f, 27) && mp_over(second@[c], f, 27) by {
                    if c < column {
                        assert(first@[c] == old_first[c]);
                        assert(second@[c] == old_second[c]);
                    }
                }
            }
            column = column + 1;
        }
        proof {
            assert(self.round_curves(first@, second@, q1, q2, *omicron));
        }
        (first, second)
    }

    /// Returns the AIR transition constraints of Rescue-Prime: for each
    /// state entry `i`, with `x` the state before a round and `y` after it,
    /// `Σ_j MDS[i][j] x_j^3 + c1_i − (Σ_j MDS⁻¹[i][j] (y_j − c2_j))^3`,
    /// the round constants `c1`, `c2` as polynomials in the cycle variable.
    pub fn transition_constraints(&self, omicron: &FieldElement) -> (cs: Vec<MPolynomial>)
        requires
            omicron.wf(),
            omicron.field == self.field_spec(),
            distinct_points(powers(*omicron, 27)),
        ensures
            cs@.len() == 2,
            forall|i: int| 0 <= i < 2 ==> mp_over(#[trigger] cs@[i], self.field_spec(), 81),
            self.is_rescue_air(cs@, *omicron),
    {
        proof {
            use_type_invariant(self);
            self.lemma_inv();
        }
        let (first, second) = self.round_constants_polynomials(omicron);
        let ghost (q1, q2) = choose|q1: Seq<Seq<FieldElement>>, q2: Seq<Seq<FieldElement>>|
            self.round_curves(first@, second@, q1, q2, *omicron);
        let f = self.field_of();
        let ghost mds = self.mds_spec();
        let ghost mds_inv = self.mds_inv_spec();
        let variables = MPolynomial::variables(5, &f);
        proof {
            assert forall|t: int| 0 <= t < 5 implies mp_over(#[trigger] variables@[t], f, 1) by {
                lemma_max_exponent(variables@[t]@);
                assert forall|i: int, u: int| 0 <= i < variables@[t]@.len() implies exponent_at(variables@[t]@[i].0, u) <= 1 by {
                    assert(exponent_at(variables@[t]@[i].0, u) <= max_exponent(variables@[t]@));
                }
            }
        }
        let mut constraints: Vec<MPolynomial> = Vec::new();
        let mut row: usize = 0;
        while row < 2
            invariant
                row <= 2,
                f == self.field_spec(),
                f.p == MAIN_PRIME,
                square_over(mds, 2, f),
                square_over(mds_inv, 2, f),
                mds == self.mds_spec(),
                mds_inv == self.mds_inv_spec(),
                first@.len() == 2,
                second@.len() == 2,
                forall|c: int| 0 <= c < 2 ==> mp_over(#[trigger] first@[c], f, 27),
                forall|c: int| 0 <= c < 2 ==> mp_over(#[trigger] second@[c], f, 27),
                variables@.len() == 5,
                forall|t: int| 0 <= t < 5 ==> mp_over(#[trigger] variables@[t], f, 1),
                constraints@.len() == row,
                forall|i: int| 0 <= i < row ==> mp_over(#[trigger] constraints@[i], f, 81),
                self.round_curves(first@, second@, q1, q2, *omicron),
                omicron.field == f,
                forall|t: int, x: Seq<int>| 0 <= t < 5 ==> #[trigger] mp_eval(variables@[t]@, x) % (f.p as int) == x[t] % (f.p as int),
                forall|i: int, x: Seq<int>|
                    0 <= i < row ==> #[trigger] mp_eval(constraints@[i]@, x) % (f.p as int) == self.air_value(
                        i,
                        x,
                        Seq::new(2, |c: int| poly_eval(q1[c], x[0])),
                        Seq::new(2, |c: int| poly_eval(q2[c], x[0])),
                    ) % (f.p as int),
            decreases 2 - row,
        {
            let mut lhs = mp_constant(f.zero());
            let mut rhs = mp_constant(f.zero());
            proof {
                lemma_raise_bound(lhs, f, 0, 27);
                lemma_raise_bound(rhs, f, 0, 27);
            }
            let mut column: usize = 0;
            while column < 2
                invariant
                    column <= 2,
                    row < 2,
                    f.p == MAIN_PRIME,
                    square_over(mds, 2, f),
                    square_over(mds_inv, 2, f),
                    mds == self.mds_spec(),
                    mds_inv == self.mds_inv_spec(),
                    second@.len() == 2,
                    forall|c: int| 0 <= c < 2 ==> mp_over(#[trigger] second@[c], f, 27),
                    variables@.len() == 5,
                    forall|t: int| 0 <= t < 5 ==> mp_over(#[trigger] variables@[t], f, 1),
                    mp_over(lhs, f, 27),
                    mp_over(rhs, f, 27),
                    self.round_curves(first@, second@, q1, q2, *omicron),
                    omicron.field == f,
                    forall|t: int, x: Seq<int>| 0 <= t < 5 ==> #[trigger] mp_eval(variables@[t]@, x) % (f.p as int) == x[t] % (f.p as int),
                    forall|x: Seq<int>| #[trigger] mp_eval(lhs@, x) % (f.p as int) == forward_upto(mds[row as int], x, column as int) % (f.p as int),
                    forall|x: Seq<int>|
                        #[trigger] mp_eval(rhs@, x) % (f.p as int) == backward_upto(
                            mds_inv[row as int],
                            x,
                            Seq::new(2, |c: int| poly_eval(q2[c], x[0])),
                            column as int,
                        ) % (f.p as int),
                decreases 2 - column,
            {
                proof {
                    assert(mds[row as int][column as int].wf());
                    assert(mds_inv[row as int][column as int].wf());
                    assert(mp_over(variables@[1 + column], f, 1));
                    assert(mp_over(variables@[3 + column], f, 1));
                    assert(mp_over(second@[column as int], f, 27));
                }
                let ghost lhs_old = lhs@;
                let ghost rhs_old = rhs@;
                let ghost pp = f.p as int;
                let m_entry = self.mds_entry(row, column);
                let cube = mp_power(&variables[1 + column], 3, f, 1);
                let cm = mp_constant(m_entry);
                let a = mp_times(cm, cube, f, 0, 3);
                proof {
                    lemma_raise_bound(a, f, 3, 27);
                }
                lhs = mp_plus(lhs, a, f, 27);
                let y = variables[3 + column].clone();
                proof {
                    lemma_raise_bound(y, f, 1, 27);
                }
                let c2_poly = second[column].clone();
                let shifted = mp_minus(y, c2_poly, f, 27);
                let inv_entry = self.mds_inv_entry(row, column);
                let ci = mp_constant(inv_entry);
                let b = mp_times(ci, shifted, f, 0, 27);
                rhs = mp_plus(rhs, b, f, 27);
                proof {
                    assert(round_curve(first@[column as int], q1[column as int], *omicron, column_constants(self.constants_spec(), column as int, 0)));
                    assert(forall|x: Seq<int>| #[trigger] mp_eval(second@[column as int]@, x) % pp == poly_eval(q2[column as int], x[0]) % pp);
                    assert forall|x: Seq<int>| #[trigger] mp_eval(lhs@, x) % pp == forward_upto(mds[row as int], x, column + 1) % pp by {
                        let v = mp_eval(variables@[1 + column]@, x);
                        lemma_pow_congruent(v, x[1 + column], 3, pp);
                        lemma_mul_congruent(m_entry.value as int, mp_eval(cube@, x), m_entry.value as int, pow(x[1 + column], 3), pp);
                        lemma_mul_congruent(mp_eval(cm@, x), mp_eval(cube@, x), m_entry.value as int, pow(x[1 + column], 3), pp);
                        lemma_add_congruent2(
                            mp_eval(lhs_old, x),
                            forward_upto(mds[row as int], x, column as int),
                            mp_eval(a@, x),
                            m_entry.value * pow(x[1 + column], 3),
                            pp,
                        );
                    }
                    assert forall|x: Seq<int>|
                        #[trigger] mp_eval(rhs@, x) % pp == backward_upto(
                            mds_inv[row as int],
                            x,
                            Seq::new(2, |c: int| poly_eval(q2[c], x[0])),
                            column + 1,
                        ) % pp by {
                        let cc = Seq::new(2, |c: int| poly_eval(q2[c], x[0]));
                        assert(mp_eval(c2_poly@, x) % pp == cc[column as int] % pp);
                        assert(mp_eval(y@, x) % pp == x[3 + column] % pp);
                        lemma_sub_congruent(mp_eval(y@, x), x[3 + column], mp_eval(c2_poly@, x), cc[column as int], pp);
                        lemma_mul_congruent(
                            mp_eval(ci@, x),
                            mp_eval(shifted@, x),
                            inv_entry.value as int,
                            x[3 + column] - cc[column as int],
                            pp,
                        );
                        lemma_add_congruent2(
                            mp_eval(rhs_old, x),
                            backward_upto(mds_inv[row as int], x, cc, column as int),
                            mp_eval(b@, x),
                            inv_entry.value * (x[3 + column] - cc[column as int]),
                            pp,
                        );
                    }
                }
                column = column + 1;
            }
            proof {
                assert(mp_over(first@[row as int], f, 27));
            }
            let ghost lhs_mix = lhs@;
            let c1_poly = first[row].clone();
            let lhs = mp_plus(lhs, c1_poly, f, 27);
            let cubed = mp_power(&rhs, 3, f, 27);
            proof {
                lemma_raise_bound(lhs, f, 27, 81);
            }
            let constraint = mp_minus(lhs, cubed, f, 81);
            proof {
                let pp = f.p as int;
                assert forall|x: Seq<int>|
                    #[trigger] mp_eval(constraint@, x) % pp == self.air_value(
                        row as int,
                        x,
                        Seq::new(2, |c: int| poly_eval(q1[c], x[0])),
                        Seq::new(2, |c: int| poly_eval(q2[c], x[0])),
                    ) % pp by {
                    let c1 = Seq::new(2, |c: int| poly_eval(q1[c], x[0]));
                    let c2 = Seq::new(2, |c: int| poly_eval(q2[c], x[0]));
                    let fw = forward_upto(mds[row as int], x, 2);
                    let bw = backward_upto(mds_inv[row as int], x, c2, 2);
                    assert(round_curve(first@[row as int], q1[row as int], *omicron, column_constants(self.constants_spec(), row as int, 0)));
                    assert(mp_eval(c1_poly@, x) % pp == c1[row as int] % pp);
                    assert(mp_eval(lhs_mix, x) % pp == fw % pp);
                    lemma_add_congruent2(mp_eval(lhs_mix, x), fw, mp_eval(c1_poly@, x), c1[row as int], pp);
                    assert(mp_eval(rhs@, x) % pp == bw % pp);
                    lemma_pow_congruent(mp_eval(rhs@, x), bw, 3, pp);
                    lemma_sub_congruent(mp_eval(lhs@, x), fw + c1[row as int], mp_eval(cubed@, x), pow(bw, 3), pp);
                }
            }
            let ghost before = constraints@;
            constraints.push(constraint);
            proof {
                assert forall|i: int, x: Seq<int>|
                    0 <= i < row + 1 implies #[trigger] mp_eval(constraints@[i]@, x) % (f.p as int) == self.air_value(
                        i,
                        x,
                        Seq::new(2, |c: int| poly_eval(q1[c], x[0])),
                        Seq::new(2, |c: int| poly_eval(q2[c], x[0])),
                    ) % (f.p as int) by {
                    if i < row {
                        assert(constraints@[i] == before[i]);
                    }
                }
            }
            row = row + 1;
        }
        proof {
            assert(self.round_curves(first@, second@, q1, q2, *omicron));
            assert(self.is_rescue_air(constraints@, *omicron));
        }
        constraints
    }

    /// Returns the boundary constraints of hashing to `output_element`: the
    /// capacity entry starts at zero, and the first entry ends at the
    /// output.
    pub fn boundary_constraints(&self, output_element: &FieldElement) -> (b: Vec<BoundaryConstraint>)
        ensures
            b@ == self.boundary_spec(*output_element),
    {
        proof {
            use_type_invariant(self);
        }
        let f = self.field_of();
        let mut b: Vec<BoundaryConstraint> = Vec::new();
        b.push((0, 1, f.zero()));
        b.push((27, 0, *output_element));
        proof {
            assert(b@ =~= seq![(0usize, 1usize, self.field_spec().element_of(0)), (27usize, 0usize, *output_element)]);
        }
        b
    }
}

} // verus!
