//! Univariate polynomials over the prime field used by the STARK
//! implementation, represented by coefficients in ascending degree order.
//!
//! A polynomial is modelled by its coefficient sequence; its mathematical
//! content is given by [`coeff`] (the coefficient of `x^i`, zero beyond the
//! end) and [`poly_eval`] (the integer value `Σ c_i x^i`, which the field
//! reduces modulo `p`).

pub mod eval_laws;
pub mod multivariate;
pub mod multivariate_eval;
pub mod roots;

use vstd::prelude::*;
use vstd::arithmetic::div_mod::*;
use vstd::arithmetic::mul::*;
use vstd::arithmetic::power::*;

use core::ops::Neg;

use crate::field::{Field, FieldElement};
use crate::field::laws::lemma_inverse_cancels;
use crate::field::arith::spec_inverse;
use crate::math::{spec_gcd, spec_xgcd};
use crate::polynomial::eval_laws::{
    lemma_conv_top, lemma_eval_add, lemma_eval_monomial, lemma_eval_mul, lemma_eval_neg,
    lemma_eval_update,
};

verus! {

/// The coefficient of `x^i`: the residue stored at `i`, zero elsewhere.
pub open spec fn coeff(s: Seq<FieldElement>, i: int) -> int {
    if 0 <= i < s.len() {
        s[i].value as int
    } else {
        0
    }
}

/// Every coefficient is a well-formed element of `f`.
pub open spec fn all_in_field(s: Seq<FieldElement>, f: Field) -> bool {
    forall|i: int| 0 <= i < s.len() ==> (#[trigger] s[i]).field == f && s[i].wf()
}

/// All coefficients belong to one field (that of the first).
pub open spec fn field_consistent(s: Seq<FieldElement>) -> bool {
    s.len() > 0 ==> all_in_field(s, s[0].field)
}

/// No trailing zero coefficient.
pub open spec fn canonical(s: Seq<FieldElement>) -> bool {
    s.len() > 0 ==> s.last().value != 0
}

/// A well-formed coefficient sequence: canonical and in one field.
pub open spec fn poly_wf(s: Seq<FieldElement>) -> bool {
    field_consistent(s) && canonical(s)
}

/// The sequence with its trailing zero coefficients removed.
pub open spec fn strip_zeros(s: Seq<FieldElement>) -> Seq<FieldElement>
    decreases s.len(),
{
    if s.len() > 0 && s.last().value == 0 {
        strip_zeros(s.drop_last())
    } else {
        s
    }
}

/// `Σ_{i<n} c_i x^i` over the integers.
pub open spec fn eval_upto(s: Seq<FieldElement>, x: int, n: nat) -> int
    decreases n,
{
    if n == 0 {
        0
    } else {
        eval_upto(s, x, (n - 1) as nat) + coeff(s, n - 1) * pow(x, (n - 1) as nat)
    }
}

/// The value of the polynomial at `x`, over the integers.
pub open spec fn poly_eval(s: Seq<FieldElement>, x: int) -> int {
    eval_upto(s, x, s.len())
}

/// A field element held at the same position of two sequences is
/// congruent and the rest is zero: removing trailing zeros keeps every
/// coefficient.
pub proof fn lemma_strip_zeros(s: Seq<FieldElement>)
    ensures
        strip_zeros(s).len() <= s.len(),
        strip_zeros(s) =~= s.take(strip_zeros(s).len() as int),
        canonical(strip_zeros(s)),
        forall|i: int| #![trigger coeff(strip_zeros(s), i)] coeff(strip_zeros(s), i) == coeff(s, i),
        field_consistent(s) ==> field_consistent(strip_zeros(s)),
    decreases s.len(),
{
    if s.len() > 0 && s.last().value == 0 {
        lemma_strip_zeros(s.drop_last());
        assert forall|i: int| #![trigger coeff(strip_zeros(s), i)]
            coeff(strip_zeros(s), i) == coeff(s, i) by {
            assert(coeff(strip_zeros(s.drop_last()), i) == coeff(s.drop_last(), i));
        }
        if field_consistent(s) && s.drop_last().len() > 0 {
            assert(all_in_field(s.drop_last(), s.drop_last()[0].field));
        }
    }
}

/// Sequences with the same coefficients evaluate to the same value.
pub proof fn lemma_eval_upto_coeffs(s: Seq<FieldElement>, t: Seq<FieldElement>, x: int, n: nat)
    requires
        forall|i: int| 0 <= i < n ==> coeff(s, i) == coeff(t, i),
    ensures
        eval_upto(s, x, n) == eval_upto(t, x, n),
    decreases n,
{
    if n > 0 {
        lemma_eval_upto_coeffs(s, t, x, (n - 1) as nat);
    }
}

/// Terms past the last coefficient contribute nothing.
pub proof fn lemma_eval_upto_beyond(s: Seq<FieldElement>, x: int, n: nat)
    requires
        n >= s.len(),
    ensures
        eval_upto(s, x, n) == poly_eval(s, x),
    decreases n,
{
    if n > s.len() {
        lemma_eval_upto_beyond(s, x, (n - 1) as nat);
        lemma_mul_basics(pow(x, (n - 1) as nat));
    }
}

/// Evaluation ignores trailing zeros and depends only on the coefficients.
pub proof fn lemma_eval_same_coeffs(s: Seq<FieldElement>, t: Seq<FieldElement>, x: int)
    requires
        forall|i: int| #![trigger coeff(s, i)] coeff(s, i) == coeff(t, i),
    ensures
        poly_eval(s, x) == poly_eval(t, x),
{
    let n = if s.len() >= t.len() { s.len() } else { t.len() };
    lemma_eval_upto_coeffs(s, t, x, n);
    lemma_eval_upto_beyond(s, x, n);
    lemma_eval_upto_beyond(t, x, n);
}


/// The coefficient-wise sum, in the field of `a`.
pub open spec fn sum_coeffs(a: Seq<FieldElement>, b: Seq<FieldElement>) -> Seq<FieldElement> {
    let n = if a.len() >= b.len() { a.len() } else { b.len() };
    Seq::new(n, |i: int| a[0].field.element_of(coeff(a, i) + coeff(b, i)))
}

/// The sum of two polynomials.
pub open spec fn poly_add(a: Seq<FieldElement>, b: Seq<FieldElement>) -> Seq<FieldElement> {
    if a.len() == 0 {
        b
    } else if b.len() == 0 {
        a
    } else {
        strip_zeros(sum_coeffs(a, b))
    }
}

/// The negation of a polynomial.
pub open spec fn poly_neg(a: Seq<FieldElement>) -> Seq<FieldElement> {
    strip_zeros(a.map_values(|c: FieldElement| c.field.element_of(-c.value)))
}

/// The difference of two polynomials.
pub open spec fn poly_sub(a: Seq<FieldElement>, b: Seq<FieldElement>) -> Seq<FieldElement> {
    poly_add(a, poly_neg(b))
}

/// `Σ_{i<n} a_i b_{k-i}`: the first `n` terms of the `k`-th coefficient of
/// the product.
pub open spec fn conv_upto(a: Seq<FieldElement>, b: Seq<FieldElement>, n: nat, k: int) -> int
    decreases n,
{
    if n == 0 {
        0
    } else {
        conv_upto(a, b, (n - 1) as nat, k) + coeff(a, n - 1) * coeff(b, k - (n - 1))
    }
}

/// The product of two polynomials: the convolution of their coefficients.
pub open spec fn poly_mul(a: Seq<FieldElement>, b: Seq<FieldElement>) -> Seq<FieldElement> {
    if a.len() == 0 || b.len() == 0 {
        Seq::empty()
    } else {
        strip_zeros(
            Seq::new(
                (a.len() + b.len() - 1) as nat,
                |k: int| a[0].field.element_of(conv_upto(a, b, a.len(), k)),
            ),
        )
    }
}

/// Two well-formed polynomials over the same field (or one of them zero).
pub open spec fn compatible(a: Seq<FieldElement>, b: Seq<FieldElement>) -> bool {
    &&& poly_wf(a)
    &&& poly_wf(b)
    &&& (a.len() > 0 && b.len() > 0 ==> a[0].field == b[0].field)
}


/// `x - d`: the coefficients `[-d, 1]`.
pub open spec fn linear_factor(d: FieldElement) -> Seq<FieldElement> {
    seq![d.field.element_of(-d.value), d.field.element_of(1)]
}

/// `Π (x - d)` over the points of `ds`, in the field `f`.
pub open spec fn zerofier(ds: Seq<FieldElement>, f: Field) -> Seq<FieldElement>
    decreases ds.len(),
{
    if ds.len() == 0 {
        seq![f.element_of(1)]
    } else {
        poly_mul(zerofier(ds.drop_last(), f), linear_factor(ds.last()))
    }
}

/// `s^e` by repeated multiplication; the zero polynomial stays zero.
pub open spec fn poly_pow(s: Seq<FieldElement>, e: nat) -> Seq<FieldElement>
    decreases e,
{
    if s.len() == 0 {
        s
    } else if e == 0 {
        strip_zeros(seq![s[0].field.element_of(1)])
    } else {
        poly_mul(poly_pow(s, (e - 1) as nat), s)
    }
}

/// The polynomial `s(c x)`: coefficient `i` multiplied by `c^i`.
pub open spec fn poly_scale(s: Seq<FieldElement>, c: FieldElement) -> Seq<FieldElement> {
    strip_zeros(
        Seq::new(s.len(), |i: int| c.field.element_of(pow(c.value as int, i as nat) * coeff(s, i))),
    )
}

/// Every point of `ds` is a well-formed element of `f`.
pub open spec fn points_in_field(ds: Seq<FieldElement>, f: Field) -> bool {
    forall|i: int| 0 <= i < ds.len() ==> (#[trigger] ds[i]).field == f && ds[i].wf()
}


/// No two points of `ds` coincide.
pub open spec fn distinct_points(ds: Seq<FieldElement>) -> bool {
    forall|i: int, j: int| 0 <= i < ds.len() && 0 <= j < ds.len() && i != j ==> ds[i].value != ds[j].value
}

/// Every difference of two distinct points is coprime to `p`; in a prime
/// field this holds for any distinct points, and it makes each difference
/// invertible.
pub open spec fn differences_invertible(ds: Seq<FieldElement>, p: nat) -> bool {
    forall|i: int, j: int|
        0 <= i < ds.len() && 0 <= j < ds.len() && i != j ==> spec_gcd(
            ((ds[i].value - ds[j].value) % (p as int)) as nat,
            p,
        ) == 1
}


/// `c x^shift` as a coefficient sequence.
pub open spec fn monomial_seq(shift: nat, c: FieldElement) -> Seq<FieldElement> {
    Seq::new(shift + 1, |k: int| if k == shift { c } else { c.field.element_of(0) })
}

/// One step of long division: subtract from `r` the multiple of `d` that
/// cancels its leading term.
pub open spec fn division_step(r: Seq<FieldElement>, d: Seq<FieldElement>) -> Seq<FieldElement> {
    let f = d[0].field;
    let c = f.element_of(
        r.last().value * spec_inverse((d.last().value % f.p) as nat, f.p as nat),
    );
    poly_sub(r, poly_mul(strip_zeros(monomial_seq((r.len() - d.len()) as nat, c)), d))
}

/// Long division steps until the degree falls below that of `d` (at most
/// `fuel` of them).
pub open spec fn poly_rem(r: Seq<FieldElement>, d: Seq<FieldElement>, fuel: nat) -> Seq<FieldElement>
    decreases fuel,
{
    if fuel == 0 || r.len() == 0 || r.len() < d.len() {
        r
    } else {
        poly_rem(division_step(r, d), d, (fuel - 1) as nat)
    }
}

/// The coefficient sequences of a list of polynomials.
pub open spec fn poly_views(ps: Seq<Polynomial>) -> Seq<Seq<FieldElement>> {
    ps.map_values(|q: Polynomial| q@)
}

/// One more polynomial, one more view.
pub proof fn lemma_poly_views_push(ps: Seq<Polynomial>, q: Polynomial)
    ensures
        poly_views(ps.push(q)) == poly_views(ps).push(q@),
{
    assert(poly_views(ps.push(q)) =~= poly_views(ps).push(q@));
}

/// The quotient coefficient of one long division step.
pub open spec fn step_coefficient(r: Seq<FieldElement>, d: Seq<FieldElement>) -> FieldElement {
    let f = d[0].field;
    f.element_of(r.last().value * spec_inverse((d.last().value % f.p) as nat, f.p as nat))
}

/// The quotient coefficients after the long division steps from `r` (at
/// most `fuel` of them), each step setting the coefficient of its shift.
pub open spec fn poly_quot(r: Seq<FieldElement>, d: Seq<FieldElement>, fuel: nat, q: Seq<FieldElement>) -> Seq<FieldElement>
    decreases fuel,
{
    if fuel == 0 || r.len() == 0 || r.len() < d.len() {
        q
    } else {
        poly_quot(division_step(r, d), d, (fuel - 1) as nat, q.update(r.len() - d.len(), step_coefficient(r, d)))
    }
}

/// The quotient of the long division of `n` by `d`.
pub open spec fn quotient_of(n: Seq<FieldElement>, d: Seq<FieldElement>) -> Seq<FieldElement> {
    if n.len() < d.len() {
        Seq::empty()
    } else {
        strip_zeros(poly_quot(n, d, n.len(), Seq::new((n.len() - d.len() + 1) as nat, |i: int| d[0].field.element_of(0))))
    }
}

/// The remainder of the long division of `n` by `d`.
pub open spec fn remainder_of(n: Seq<FieldElement>, d: Seq<FieldElement>) -> Seq<FieldElement> {
    poly_rem(n, d, n.len())
}

/// `(a + b * c) mod p` reduced step by step.
proof fn lemma_mod_acc(a: int, b: int, c: int, p: int)
    requires
        p > 0,
    ensures
        ((a % p) + (b * (c % p)) % p) % p == (a + b * c) % p,
{
    lemma_mul_mod_noop_right(b, c, p);
    lemma_add_mod_noop(a, b * c, p);
    lemma_mod_twice(a, p);
    lemma_mod_twice(b * c, p);
}

/// A polynomial represented by coefficients in ascending degree order;
/// `coefficients[i]` stores the coefficient of `x^i`.  Trailing zero
/// coefficients are always removed, so the representation is canonical.
#[derive(Debug, PartialEq, Eq)]
pub struct Polynomial {
    coefficients: Vec<FieldElement>,
}

impl View for Polynomial {
    type V = Seq<FieldElement>;

    closed spec fn view(&self) -> Seq<FieldElement> {
        self.coefficients@
    }
}

impl Clone for Polynomial {
    fn clone(&self) -> (r: Polynomial)
        ensures
            r@ == self@,
    {
        let mut out: Vec<FieldElement> = Vec::new();
        let mut i: usize = 0;
        while i < self.coefficients.len()
            invariant
                i <= self.coefficients@.len(),
                out@ == self.coefficients@.take(i as int),
            decreases self.coefficients@.len() - i,
        {
            out.push(self.coefficients[i]);
            i = i + 1;
            proof {
                assert(out@ =~= self.coefficients@.take(i as int));
            }
        }
        proof {
            assert(self.coefficients@.take(i as int) =~= self.coefficients@);
        }
        Polynomial { coefficients: out }
    }
}

impl Polynomial {
    /// Canonical and in one field.
    pub open spec fn wf(&self) -> bool {
        poly_wf(self@)
    }

    /// The field of the coefficients (meaningful for a non-zero polynomial).
    pub open spec fn field_spec(&self) -> Field {
        self@[0].field
    }

    /// Creates a polynomial and removes trailing zero coefficients so the
    /// internal representation stays canonical.
    pub fn new(coefficients: Vec<FieldElement>) -> (r: Polynomial)
        requires
            field_consistent(coefficients@),
        ensures
            r@ == strip_zeros(coefficients@),
            r.wf(),
    {
        let mut coefficients = coefficients;
        let ghost given = coefficients@;
        proof {
            lemma_strip_zeros(given);
        }
        while coefficients.len() > 0 && coefficients[coefficients.len() - 1].value == 0
            invariant
                strip_zeros(coefficients@) == strip_zeros(given),
            decreases coefficients@.len(),
        {
            coefficients.pop();
        }
        Polynomial { coefficients }
    }

    /// Returns the coefficients in ascending degree order.
    pub fn coefficients(&self) -> (c: &[FieldElement])
        ensures
            c@ == self@,
    {
        self.coefficients.as_slice()
    }

    /// Returns the degree of the polynomial, or `-1` for the zero polynomial.
    pub fn degree(&self) -> (d: isize)
        ensures
            self@.len() <= isize::MAX ==> d == self@.len() - 1,
    {
        if self.coefficients.len() == 0 {
            -1
        } else {
            (self.coefficients.len() - 1) as isize
        }
    }

    /// Returns `true` when this is the zero polynomial.
    pub fn is_zero(&self) -> (b: bool)
        ensures
            b == (self@.len() == 0),
    {
        self.coefficients.len() == 0
    }

    /// Returns the leading coefficient, if the polynomial is non-zero.
    pub fn leading_coefficient(&self) -> (c: Option<&FieldElement>)
        ensures
            self@.len() == 0 ==> c.is_none(),
            self@.len() > 0 ==> c == Some(&self@.last()),
    {
        if self.coefficients.len() == 0 {
            None
        } else {
            Some(&self.coefficients[self.coefficients.len() - 1])
        }
    }

    /// Evaluates the polynomial at `point`.
    pub fn evaluate(&self, point: &FieldElement) -> (v: FieldElement)
        requires
            self.wf(),
            point.wf(),
            self@.len() > 0 ==> self.field_spec() == point.field,
        ensures
            v == point.field.element_of(poly_eval(self@, point.value as int)),
            v.wf(),
    {
        let field = point.field;
        let p = field.p;
        let mut xi = field.one();
        let mut value = field.zero();
        let mut i: usize = 0;
        let ghost s = self@;
        let ghost x = point.value as int;
        proof {
            reveal_with_fuel(pow, 1);
            lemma_small_mod(0, p as nat);
        }
        while i < self.coefficients.len()
            invariant
                i <= s.len(),
                s == self.coefficients@,
                poly_wf(s),
                s.len() > 0 ==> s[0].field == field,
                point.wf(),
                field == point.field,
                p == field.p,
                x == point.value,
                xi == field.element_of(pow(x, i as nat)),
                value == field.element_of(eval_upto(s, x, i as nat)),
            decreases s.len() - i,
        {
            let c = self.coefficients[i];
            assert(all_in_field(s, s[0].field));
            assert(c.field == field);
            let term = c * xi;
            let ghost value0 = value;
            let ghost xi0 = xi;
            value = value + term;
            xi = xi * *point;
            proof {
                let pi = p as int;
                lemma_mod_acc(eval_upto(s, x, i as nat), c.value as int, pow(x, i as nat), pi);
                lemma_mul_mod_noop_left(pow(x, i as nat), x, pi);
                lemma_mul_is_commutative(x, pow(x, i as nat));
                assert(pow(x, (i + 1) as nat) == x * pow(x, i as nat)) by {
                    reveal(pow);
                }
            }
            i = i + 1;
        }
        value
    }

    /// Evaluates the polynomial over a full domain.
    pub fn evaluate_domain(&self, domain: &[FieldElement]) -> (values: Vec<FieldElement>)
        requires
            self.wf(),
            forall|i: int| 0 <= i < domain@.len() ==> (#[trigger] domain@[i]).wf() && (self@.len()
                > 0 ==> domain@[i].field == self.field_spec()),
        ensures
            values@.len() == domain@.len(),
            forall|i: int|
                0 <= i < domain@.len() ==> #[trigger] values@[i] == domain@[i].field.element_of(
                    poly_eval(self@, domain@[i].value as int),
                ),
    {
        let mut values: Vec<FieldElement> = Vec::new();
        let mut i: usize = 0;
        while i < domain.len()
            invariant
                self.wf(),
                i <= domain@.len(),
                values@.len() == i,
                forall|j: int| 0 <= j < domain@.len() ==> (#[trigger] domain@[j]).wf() && (self@.len()
                    > 0 ==> domain@[j].field == self.field_spec()),
                forall|j: int|
                    0 <= j < i ==> #[trigger] values@[j] == domain@[j].field.element_of(
                        poly_eval(self@, domain@[j].value as int),
                    ),
            decreases domain@.len() - i,
        {
            let v = self.evaluate(&domain[i]);
            values.push(v);
            i = i + 1;
        }
        values
    }
}

impl core::ops::Add for Polynomial {
    type Output = Polynomial;

    fn add(self, rhs: Polynomial) -> (r: Polynomial)
        ensures
            r@ == poly_add(self@, rhs@),
            r.wf(),
            r@.len() <= self@.len() || r@.len() <= rhs@.len(),
            r@.len() > 0 && self@.len() > 0 ==> r.field_spec() == self.field_spec(),
            r@.len() > 0 && rhs@.len() > 0 ==> r.field_spec() == rhs.field_spec(),
    {
        if self.coefficients.len() == 0 {
            return rhs;
        }
        if rhs.coefficients.len() == 0 {
            return self;
        }
        let ghost a = self@;
        let ghost b = rhs@;
        assert(all_in_field(a, a[0].field));
        assert(all_in_field(b, b[0].field));
        let field = self.coefficients[0].field;
        let la = self.coefficients.len();
        let lb = rhs.coefficients.len();
        let max_len = if la >= lb { la } else { lb };
        let mut coefficients: Vec<FieldElement> = Vec::new();
        let mut i: usize = 0;
        while i < max_len
            invariant
                a == self@,
                b == rhs@,
                la == a.len(),
                lb == b.len(),
                max_len == (if la >= lb { la } else { lb }),
                field == a[0].field,
                field.p > 0,
                all_in_field(a, field),
                all_in_field(b, field),
                i <= max_len,
                coefficients@ == sum_coeffs(a, b).take(i as int),
            decreases max_len - i,
        {
            let x = if i < la { self.coefficients[i] } else { field.zero() };
            let y = if i < lb { rhs.coefficients[i] } else { field.zero() };
            let z = x + y;
            proof {
                lemma_add_mod_noop(coeff(a, i as int), coeff(b, i as int), field.p as int);
            }
            coefficients.push(z);
            i = i + 1;
            proof {
                assert(coefficients@ =~= sum_coeffs(a, b).take(i as int));
            }
        }
        proof {
            assert(sum_coeffs(a, b).take(max_len as int) =~= sum_coeffs(a, b));
            assert(all_in_field(coefficients@, field));
            lemma_strip_zeros(coefficients@);
        }
        Polynomial::new(coefficients)
    }
}

impl vstd::std_specs::ops::AddSpecImpl for Polynomial {
    open spec fn obeys_add_spec() -> bool {
        false
    }

    open spec fn add_req(self, rhs: Polynomial) -> bool {
        compatible(self@, rhs@) && (self@.len() > 0 ==> self.field_spec().p > 0)
    }

    open spec fn add_spec(self, rhs: Polynomial) -> Polynomial {
        self
    }
}

impl core::ops::Neg for Polynomial {
    type Output = Polynomial;

    fn neg(self) -> (r: Polynomial)
        ensures
            r@ == poly_neg(self@),
            r.wf(),
            r@.len() == self@.len(),
            self@.len() > 0 ==> r.field_spec() == self.field_spec(),
    {
        let ghost a = self@;
        let n = self.coefficients.len();
        let mut coefficients: Vec<FieldElement> = Vec::new();
        let mut i: usize = 0;
        while i < n
            invariant
                a == self@,
                n == a.len(),
                poly_wf(a),
                a.len() > 0 ==> a[0].field.p > 0,
                i <= n,
                coefficients@ == a.map_values(|c: FieldElement| c.field.element_of(-c.value)).take(
                    i as int,
                ),
            decreases n - i,
        {
            assert(all_in_field(a, a[0].field));
            let c = self.coefficients[i];
            let z = c.neg();
            coefficients.push(z);
            i = i + 1;
            proof {
                assert(coefficients@ =~= a.map_values(
                    |c: FieldElement| c.field.element_of(-c.value),
                ).take(i as int));
            }
        }
        let ghost m = a.map_values(|c: FieldElement| c.field.element_of(-c.value));
        proof {
            assert(m.take(n as int) =~= m);
            if n > 0 {
                assert(all_in_field(a, a[0].field));
                assert(all_in_field(m, m[0].field));
                let last = a[n - 1].value as int;
                let pi = a[0].field.p as int;
                lemma_small_mod(last as nat, pi as nat);
                lemma_mod_bound(-last, pi);
                if m[n - 1].value == 0 {
                    lemma_add_mod_noop(last, -last, pi);
                    lemma_mod_self_0(pi);
                    lemma_small_mod(0, pi as nat);
                }
                assert(m[n - 1].value != 0);
                assert(strip_zeros(m) == m);
            } else {
                assert(strip_zeros(m) == m);
            }
        }
        Polynomial::new(coefficients)
    }
}

impl vstd::std_specs::ops::NegSpecImpl for Polynomial {
    open spec fn obeys_neg_spec() -> bool {
        false
    }

    open spec fn neg_req(self) -> bool {
        poly_wf(self@) && (self@.len() > 0 ==> self.field_spec().p > 0)
    }

    open spec fn neg_spec(self) -> Polynomial {
        self
    }
}

impl core::ops::Sub for Polynomial {
    type Output = Polynomial;

    fn sub(self, rhs: Polynomial) -> (r: Polynomial)
        ensures
            r@ == poly_sub(self@, rhs@),
            r.wf(),
            r@.len() <= self@.len() || r@.len() <= rhs@.len(),
            r@.len() > 0 && self@.len() > 0 ==> r.field_spec() == self.field_spec(),
            r@.len() > 0 && rhs@.len() > 0 ==> r.field_spec() == rhs.field_spec(),
    {
        let neg = rhs.neg();
        self + neg
    }
}

impl vstd::std_specs::ops::SubSpecImpl for Polynomial {
    open spec fn obeys_sub_spec() -> bool {
        false
    }

    open spec fn sub_req(self, rhs: Polynomial) -> bool {
        &&& compatible(self@, rhs@)
        &&& (self@.len() > 0 ==> self.field_spec().p > 0)
        &&& (rhs@.len() > 0 ==> rhs.field_spec().p > 0)
    }

    open spec fn sub_spec(self, rhs: Polynomial) -> Polynomial {
        self
    }
}

/// Adding the next row of the schoolbook product.
proof fn lemma_conv_step(a: Seq<FieldElement>, b: Seq<FieldElement>, i: nat, k: int)
    ensures
        conv_upto(a, b, i + 1, k) == conv_upto(a, b, i, k) + coeff(a, i as int) * coeff(b, k - i),
{
}

impl core::ops::Mul for Polynomial {
    type Output = Polynomial;

    fn mul(self, rhs: Polynomial) -> (r: Polynomial)
        ensures
            r@ == poly_mul(self@, rhs@),
            r.wf(),
            self@.len() > 0 && rhs@.len() > 0 ==> r@.len() <= self@.len() + rhs@.len() - 1,
            self@.len() > 0 && rhs@.len() > 0 && r@.len() > 0 ==> r.field_spec() == self.field_spec(),
    {
        if self.coefficients.len() == 0 || rhs.coefficients.len() == 0 {
            let empty: Vec<FieldElement> = Vec::new();
            return Polynomial::new(empty);
        }
        let ghost a = self@;
        let ghost b = rhs@;
        assert(all_in_field(a, a[0].field));
        assert(all_in_field(b, b[0].field));
        let field = self.coefficients[0].field;
        let p = field.p;
        let la = self.coefficients.len();
        let lb = rhs.coefficients.len();
        let zero = field.zero();
        assert(la + lb <= usize::MAX);
        let total = la + lb - 1;
        let mut coefficients: Vec<FieldElement> = Vec::new();
        let mut k: usize = 0;
        while k < total
            invariant
                k <= total,
                coefficients@.len() == k,
                forall|t: int| 0 <= t < k ==> (#[trigger] coefficients@[t]) == zero,
            decreases total - k,
        {
            coefficients.push(zero);
            k = k + 1;
        }
        proof {
            assert forall|t: int| 0 <= t < total implies (#[trigger] coefficients@[t])
                == field.element_of(conv_upto(a, b, 0, t)) by {
                lemma_small_mod(0, p as nat);
            }
        }
        let mut i: usize = 0;
        while i < la
            invariant
                a == self@,
                b == rhs@,
                la == a.len(),
                lb == b.len(),
                total == la + lb - 1,
                field == a[0].field,
                p == field.p,
                p > 0,
                all_in_field(a, field),
                all_in_field(b, field),
                i <= la,
                coefficients@.len() == total,
                forall|t: int|
                    0 <= t < total ==> (#[trigger] coefficients@[t]) == field.element_of(
                        conv_upto(a, b, i as nat, t),
                    ),
            decreases la - i,
        {
            let left = self.coefficients[i];
            if left.value == 0 {
                proof {
                    assert forall|t: int| 0 <= t < total implies (#[trigger] coefficients@[t])
                        == field.element_of(conv_upto(a, b, (i + 1) as nat, t)) by {
                        lemma_conv_step(a, b, i as nat, t);
                        lemma_mul_basics(coeff(b, t - i));
                    }
                }
                i = i + 1;
                continue;
            }
            let mut j: usize = 0;
            while j < lb
                invariant
                    a == self@,
                    b == rhs@,
                    la == a.len(),
                    lb == b.len(),
                    total == la + lb - 1,
                    field == a[0].field,
                    p == field.p,
                    p > 0,
                    all_in_field(a, field),
                    all_in_field(b, field),
                    i < la,
                    left == a[i as int],
                    j <= lb,
                    coefficients@.len() == total,
                    forall|t: int|
                        0 <= t < total ==> (#[trigger] coefficients@[t]) == field.element_of(
                            conv_upto(a, b, i as nat, t) + (if i <= t < i + j {
                                coeff(a, i as int) * coeff(b, t - i)
                            } else {
                                0
                            }),
                        ),
                decreases lb - j,
            {
                let right = rhs.coefficients[j];
                let old = coefficients[i + j];
                let product = left * right;
                let updated = old + product;
                proof {
                    let t = (i + j) as int;
                    lemma_mod_acc(
                        conv_upto(a, b, i as nat, t),
                        coeff(a, i as int),
                        coeff(b, t - i),
                        p as int,
                    );
                    lemma_add_mod_noop(conv_upto(a, b, i as nat, t), coeff(a, i as int) * coeff(b, t - i), p as int);
                    lemma_mul_mod_noop_right(coeff(a, i as int), coeff(b, t - i), p as int);
                    lemma_mod_twice(coeff(a, i as int) * coeff(b, t - i), p as int);
                }
                coefficients.set(i + j, updated);
                j = j + 1;
            }
            proof {
                assert forall|t: int| 0 <= t < total implies (#[trigger] coefficients@[t])
                    == field.element_of(conv_upto(a, b, (i + 1) as nat, t)) by {
                    lemma_conv_step(a, b, i as nat, t);
                    if !(i <= t < i + lb) {
                        lemma_mul_basics(coeff(a, i as int));
                    }
                }
            }
            i = i + 1;
        }
        proof {
            assert(coefficients@ =~= Seq::new(
                (a.len() + b.len() - 1) as nat,
                |t: int| a[0].field.element_of(conv_upto(a, b, a.len(), t)),
            ));
            assert(all_in_field(coefficients@, field));
            lemma_strip_zeros(coefficients@);
        }
        Polynomial::new(coefficients)
    }
}

impl vstd::std_specs::ops::MulSpecImpl for Polynomial {
    open spec fn obeys_mul_spec() -> bool {
        false
    }

    open spec fn mul_req(self, rhs: Polynomial) -> bool {
        &&& compatible(self@, rhs@)
        &&& (self@.len() > 0 ==> self.field_spec().p > 0)
        &&& self@.len() + rhs@.len() <= usize::MAX
    }

    open spec fn mul_spec(self, rhs: Polynomial) -> Polynomial {
        self
    }
}

/// The value of `x - d` at a point.
pub proof fn lemma_eval_linear(d: FieldElement, x: int)
    requires
        d.field.p > 1,
    ensures
        poly_eval(linear_factor(d), x) % (d.field.p as int) == (x - d.value) % (d.field.p as int),
{
    let p = d.field.p as int;
    reveal_with_fuel(pow, 2);
    lemma_small_mod(1, p as nat);
    let c0 = (-d.value) % p;
    assert(poly_eval(linear_factor(d), x) == c0 + 1 * x) by {
        reveal_with_fuel(eval_upto, 3);
        lemma_mul_basics(x);
        lemma_mul_basics(c0);
    }
    lemma_add_mod_noop(-d.value, x, p);
    lemma_mod_twice(-d.value, p);
    lemma_add_mod_noop(c0, x, p);
}

/// The constant polynomial `[c]`.
fn constant(c: FieldElement) -> (r: Polynomial)
    requires
        c.wf(),
    ensures
        r@ == strip_zeros(seq![c]),
        r.wf(),
        c.value != 0 ==> r@ == seq![c],
        c.value == 0 ==> r@.len() == 0,
{
    let v = vec![c];
    proof {
        assert(v@ =~= seq![c]);
        assert(seq![c].drop_last() =~= Seq::<FieldElement>::empty());
        reveal_with_fuel(strip_zeros, 2);
    }
    Polynomial::new(v)
}

/// The polynomial `x` over `field`.
fn variable(field: Field) -> (r: Polynomial)
    requires
        field.p > 1,
    ensures
        r@ == seq![field.element_of(0), field.element_of(1)],
        r.wf(),
{
    let v = vec![field.zero(), field.one()];
    proof {
        lemma_small_mod(0, field.p as nat);
        lemma_small_mod(1, field.p as nat);
        assert(v@ =~= seq![field.element_of(0), field.element_of(1)]);
    }
    Polynomial::new(v)
}

/// `x - d`.
fn linear(x: &Polynomial, d: FieldElement) -> (r: Polynomial)
    requires
        d.wf(),
        d.field.p > 1,
        x@ == seq![d.field.element_of(0), d.field.element_of(1)],
    ensures
        r@ == linear_factor(d),
        r.wf(),
{
    let f = d.field;
    let ghost p = f.p as int;
    proof {
        lemma_small_mod(1, p as nat);
        lemma_small_mod(d.value as nat, p as nat);
    }
    let c = constant(d);
    let r = x.clone() - c;
    proof {
        if d.value == 0 {
            assert(poly_neg(Seq::<FieldElement>::empty()) =~= Seq::<FieldElement>::empty());
            assert(r@ =~= linear_factor(d));
        } else {
            let n = f.element_of(-d.value);
            lemma_mod_bound(-d.value, p);
            if n.value == 0 {
                lemma_add_mod_noop(d.value as int, -d.value, p);
                lemma_mod_self_0(p);
                lemma_small_mod(0, p as nat);
            }
            let m = seq![d].map_values(|e: FieldElement| e.field.element_of(-e.value));
            assert(m =~= seq![n]);
            assert(m.drop_last() =~= Seq::<FieldElement>::empty());
            assert(poly_neg(seq![d]) == seq![n]);
            let sc = sum_coeffs(x@, seq![n]);
            lemma_mod_twice(-d.value, p);
            assert(sc =~= linear_factor(d));
            assert(strip_zeros(sc) == sc);
        }
    }
    r
}

impl Polynomial {
    /// Raises the polynomial to a non-negative integer power.
    pub fn pow(&self, exponent: u64) -> (r: Polynomial)
        requires
            self.wf(),
            self@.len() > 0 ==> self.field_spec().p > 0,
            self@.len() * (exponent as int + 1) <= usize::MAX,
        ensures
            r@ == poly_pow(self@, exponent as nat),
            r.wf(),
            r@.len() <= self@.len() * exponent + 1,
            r@.len() > 0 ==> r.field_spec() == self.field_spec(),
            self@.len() > 0 ==> forall|z: int| #[trigger] poly_eval(r@, z) % (self.field_spec().p as int) == pow(
                poly_eval(self@, z),
                exponent as nat,
            ) % (self.field_spec().p as int),
    {
        if self.coefficients.len() == 0 {
            let empty: Vec<FieldElement> = Vec::new();
            proof {
                assert(empty@ =~= self@);
            }
            return Polynomial::new(empty);
        }
        let ghost a = self@;
        assert(all_in_field(a, a[0].field));
        let field = self.coefficients[0].field;
        let ghost p = field.p as int;
        let mut acc = constant(field.one());
        proof {
            assert(poly_pow(a, 0) == acc@);
            if acc@.len() > 0 {
                assert(acc@ == seq![field.element_of(1)]);
            }
            assert forall|z: int| #[trigger] poly_eval(acc@, z) % p == pow(poly_eval(a, z), 0) % p by {
                lemma_eval_constant(field.element_of(1), z);
                reveal(pow);
                lemma_mod_twice(1, p);
            }
        }
        let mut k: u64 = 0;
        while k < exponent
            invariant
                a == self@,
                poly_wf(a),
                a.len() > 0,
                field == a[0].field,
                field.p > 0,
                a.len() * (exponent as int + 1) <= usize::MAX,
                k <= exponent,
                acc@ == poly_pow(a, k as nat),
                acc.wf(),
                acc@.len() <= a.len() * (k as int) + 1,
                acc@.len() > 0 ==> acc.field_spec() == field,
                p == field.p,
                forall|z: int| #[trigger] poly_eval(acc@, z) % p == pow(poly_eval(a, z), k as nat) % p,
            decreases exponent - k,
        {
            proof {
                let n = a.len() as int;
                lemma_mul_is_distributive_add(n, k as int, 1);
                lemma_mul_is_distributive_add(n, exponent as int, 1);
                lemma_mul_inequality(k as int + 1, exponent as int, n);
                lemma_mul_is_commutative(n, k as int + 1);
                lemma_mul_is_commutative(n, exponent as int);
                assert(n * (k as int + 1) <= n * (exponent as int));
            }
            let ghost before = acc@;
            acc = acc * self.clone();
            proof {
                assert forall|z: int| #[trigger] poly_eval(acc@, z) % p == pow(poly_eval(a, z), (k + 1) as nat) % p by {
                    let e = poly_eval(a, z);
                    let eb = poly_eval(before, z);
                    if before.len() > 0 {
                        lemma_eval_mul(before, a, z);
                    } else {
                        assert(acc@.len() == 0);
                        assert(poly_eval(acc@, z) == 0);
                        assert(eb == 0);
                    }
                    lemma_pow_adds(e, k as nat, 1);
                    lemma_pow1(e);
                    lemma_mul_mod_noop_left(eb, e, p);
                    lemma_mul_mod_noop_left(pow(e, k as nat), e, p);
                }
                lemma_mul_is_distributive_add(a.len() as int, k as int, 1);
            }
            k = k + 1;
        }
        proof {
            assert(acc@.len() <= a.len() * exponent + 1);
        }
        acc
    }

    /// Scales the indeterminate by `factor`, producing `f(factor * x)`.
    pub fn scale(&self, factor: &FieldElement) -> (r: Polynomial)
        requires
            self.wf(),
            factor.wf(),
        ensures
            r@ == poly_scale(self@, *factor),
            r.wf(),
            r@.len() > 0 ==> r.field_spec() == factor.field,
    {
        let ghost a = self@;
        let n = self.coefficients.len();
        let mut coefficients: Vec<FieldElement> = Vec::new();
        let mut i: usize = 0;
        let ghost target = Seq::new(
            a.len(),
            |i: int| factor.field.element_of(pow(factor.value as int, i as nat) * coeff(a, i)),
        );
        while i < n
            invariant
                a == self@,
                n == a.len(),
                poly_wf(a),
                factor.wf(),
                i <= n,
                target == Seq::new(
                    a.len(),
                    |i: int| factor.field.element_of(pow(factor.value as int, i as nat) * coeff(a, i)),
                ),
                coefficients@ == target.take(i as int),
            decreases n - i,
        {
            let c = self.coefficients[i];
            let fp = factor.pow(i as u64);
            let z = fp * c;
            proof {
                lemma_mul_mod_noop_left(pow(factor.value as int, i as nat), c.value as int, factor.field.p as int);
            }
            coefficients.push(z);
            i = i + 1;
            proof {
                assert(coefficients@ =~= target.take(i as int));
            }
        }
        proof {
            assert(target.take(n as int) =~= target);
            assert(all_in_field(coefficients@, factor.field));
            lemma_strip_zeros(coefficients@);
        }
        Polynomial::new(coefficients)
    }

    /// Returns the polynomial `Π (x - d)` that vanishes on every point of
    /// `domain`.
    pub fn zerofier_domain(domain: &[FieldElement]) -> (r: Polynomial)
        requires
            domain@.len() > 0,
            domain@.len() + 3 <= usize::MAX,
            points_in_field(domain@, domain@[0].field),
            domain@[0].field.p > 1,
        ensures
            r@ == zerofier(domain@, domain@[0].field),
            r.wf(),
            r@.len() <= domain@.len() + 1,
            r@.len() > 0 ==> r.field_spec() == domain@[0].field,
            forall|i: int|
                0 <= i < domain@.len() ==> #[trigger] poly_eval(r@, domain@[i].value as int) % (
                domain@[0].field.p as int) == 0,
    {
        let field = domain[0].field;
        let ghost p = field.p as int;
        let ghost ds = domain@;
        let x = variable(field);
        let mut acc = constant(field.one());
        proof {
            lemma_small_mod(1, field.p as nat);
            assert(acc@ == seq![field.element_of(1)]);
            assert(ds.take(0) =~= Seq::<FieldElement>::empty());
        }
        let mut i: usize = 0;
        while i < domain.len()
            invariant
                ds == domain@,
                ds.len() + 3 <= usize::MAX,
                field == ds[0].field,
                p == field.p,
                field.p > 1,
                points_in_field(ds, field),
                x@ == seq![field.element_of(0), field.element_of(1)],
                i <= ds.len(),
                acc@ == zerofier(ds.take(i as int), field),
                acc.wf(),
                acc@.len() <= i + 1,
                acc@.len() > 0 ==> acc.field_spec() == field,
                forall|k: int| 0 <= k < i ==> #[trigger] poly_eval(acc@, ds[k].value as int) % p == 0,
            decreases ds.len() - i,
        {
            let d = domain[i];
            let lin = linear(&x, d);
            let ghost prev = acc@;
            acc = acc * lin;
            proof {
                assert(ds.take(i + 1).drop_last() =~= ds.take(i as int));
                assert(ds.take(i + 1).last() == d);
                assert forall|k: int| 0 <= k < i + 1 implies #[trigger] poly_eval(acc@, ds[k].value as int) % p == 0 by {
                    let xk = ds[k].value as int;
                    if prev.len() == 0 {
                        assert(acc@.len() == 0);
                    } else {
                        lemma_eval_mul(prev, linear_factor(d), xk);
                        lemma_eval_linear(d, xk);
                        lemma_mul_mod_noop_general(poly_eval(prev, xk), poly_eval(linear_factor(d), xk), p);
                        if k < i {
                            lemma_mul_basics(poly_eval(linear_factor(d), xk) % p);
                        } else {
                            lemma_small_mod(0, p as nat);
                            lemma_mul_basics(poly_eval(prev, xk) % p);
                        }
                    }
                }
            }
            i = i + 1;
        }
        proof {
            assert(ds.take(ds.len() as int) =~= ds);
        }
        acc
    }
}

/// A zerofier is monic: it has one coefficient more than there are
/// points, the last of them one.
pub proof fn lemma_zerofier_monic(ds: Seq<FieldElement>, f: Field)
    requires
        f.p > 1,
        points_in_field(ds, f),
    ensures
        zerofier(ds, f).len() == ds.len() + 1,
        zerofier(ds, f).last().value == 1,
        all_in_field(zerofier(ds, f), f),
        spec_gcd(zerofier(ds, f).last().value as nat, f.p as nat) == 1,
    decreases ds.len(),
{
    lemma_small_mod(1, f.p as nat);
    if ds.len() > 0 {
        let rest = ds.drop_last();
        assert(points_in_field(rest, f)) by {
            assert forall|i: int| 0 <= i < rest.len() implies (#[trigger] rest[i]).field == f && rest[i].wf() by {
                assert(rest[i] == ds[i]);
            }
        }
        lemma_zerofier_monic(rest, f);
        let a = zerofier(rest, f);
        let d = ds.last();
        assert(d == ds[ds.len() - 1]);
        let b = linear_factor(d);
        lemma_conv_top(a, b);
        let full = Seq::new((a.len() + b.len() - 1) as nat, |k: int| a[0].field.element_of(conv_upto(a, b, a.len(), k)));
        assert(a[0].field == f);
        assert(coeff(a, a.len() - 1) == 1);
        assert(coeff(b, b.len() - 1) == 1);
        assert(full.last().value == 1);
        assert(strip_zeros(full) == full);
        assert forall|i: int| 0 <= i < full.len() implies (#[trigger] full[i]).field == f && full[i].wf() by {
            lemma_mod_bound(conv_upto(a, b, a.len(), i), f.p as int);
        }
    }
    reveal_with_fuel(spec_gcd, 3);
    assert(spec_gcd(1, f.p as nat) == spec_gcd(f.p as nat, 1nat % (f.p as nat)));
    assert(spec_gcd(f.p as nat, 1) == spec_gcd(1, (f.p as nat) % 1nat));
}

/// Evaluation of a product, including the cases where a factor is zero.
pub proof fn lemma_eval_mul_any(a: Seq<FieldElement>, b: Seq<FieldElement>, x: int, p: int)
    requires
        p > 0,
        a.len() > 0 ==> a[0].field.p == p,
    ensures
        poly_eval(poly_mul(a, b), x) % p == (poly_eval(a, x) * poly_eval(b, x)) % p,
{
    if a.len() == 0 || b.len() == 0 {
        assert(poly_eval(poly_mul(a, b), x) == 0);
        if a.len() == 0 {
            assert(poly_eval(a, x) == 0);
        } else {
            assert(poly_eval(b, x) == 0);
        }
        lemma_mul_basics(poly_eval(a, x));
        lemma_mul_basics(poly_eval(b, x));
        lemma_small_mod(0, p as nat);
    } else {
        lemma_eval_mul(a, b, x);
    }
}

/// A constant polynomial evaluates to its constant.
pub proof fn lemma_eval_constant(c: FieldElement, x: int)
    ensures
        poly_eval(strip_zeros(seq![c]), x) == c.value,
{
    reveal_with_fuel(strip_zeros, 2);
    reveal_with_fuel(eval_upto, 2);
    reveal_with_fuel(pow, 1);
    assert(seq![c].drop_last() =~= Seq::<FieldElement>::empty());
    if c.value == 0 {
        assert(strip_zeros(seq![c]) =~= Seq::<FieldElement>::empty());
    }
}

/// The difference of two distinct residues is non-zero modulo `p`.
pub proof fn lemma_diff_nonzero(a: int, b: int, p: int)
    requires
        0 <= a < p,
        0 <= b < p,
        a != b,
    ensures
        (a - b) % p != 0,
{
    if a > b {
        lemma_small_mod((a - b) as nat, p as nat);
    } else {
        lemma_mod_add_multiples_vanish(a - b, p);
        lemma_small_mod((a - b + p) as nat, p as nat);
    }
}

/// One factor `(x - d_j) / (d_i - d_j)` of a Lagrange basis polynomial,
/// as congruences on values.
proof fn lemma_basis_step(e: int, lin: int, c: int, diff: int, p: int, new_e: int)
    requires
        p > 0,
        new_e % p == ((e * lin) % p * c) % p,
        lin % p == diff % p,
    ensures
        new_e % p == (e * diff * c) % p,
{
    lemma_mul_mod_noop_right(e, lin, p);
    lemma_mul_mod_noop_right(e, diff, p);
    lemma_mul_mod_noop_left(e * lin, c, p);
    lemma_mul_mod_noop_left(e * diff, c, p);
}

impl Polynomial {
    /// Interpolates the polynomial of degree below `n` that takes
    /// `values[i]` at `domain[i]`, by Lagrange's formula.
    pub fn interpolate_domain(domain: &[FieldElement], values: &[FieldElement]) -> (r: Polynomial)
        requires
            domain@.len() == values@.len(),
            domain@.len() > 0,
            domain@.len() + 3 <= usize::MAX,
            points_in_field(domain@, domain@[0].field),
            points_in_field(values@, domain@[0].field),
            domain@[0].field.p > 1,
            distinct_points(domain@),
        ensures
            r.wf(),
            r@.len() <= domain@.len(),
            r@.len() > 0 ==> r.field_spec() == domain@[0].field,
            differences_invertible(domain@, domain@[0].field.p as nat) ==> forall|k: int|
                0 <= k < domain@.len() ==> #[trigger] poly_eval(r@, domain@[k].value as int) % (
                domain@[0].field.p as int) == values@[k].value,
            crate::field::prime::is_prime(domain@[0].field.p as int) ==> differences_invertible(
                domain@,
                domain@[0].field.p as nat,
            ),
            r@ == lagrange_sum(domain@, values@, domain@.len()),
    {
        proof {
            if crate::field::prime::is_prime(domain@[0].field.p as int) {
                crate::polynomial::roots::lemma_prime_differences_invertible(domain@, domain@[0].field.p as int);
            }
        }
        let field = domain[0].field;
        let ghost p = field.p as int;
        let ghost ds = domain@;
        let ghost vs = values@;
        let ghost h = differences_invertible(ds, field.p as nat);
        let n = domain.len();
        let x = variable(field);
        let empty: Vec<FieldElement> = Vec::new();
        let mut acc = Polynomial::new(empty);
        proof {
            reveal_with_fuel(strip_zeros, 1);
            assert forall|k: int| 0 <= k < n implies #[trigger] poly_eval(acc@, ds[k].value as int) % p
                == 0 by {
                lemma_eval_upto_beyond(acc@, ds[k].value as int, 0);
            }
        }
        let mut i: usize = 0;
        while i < n
            invariant
                ds == domain@,
                vs == values@,
                n == ds.len(),
                n == vs.len(),
                n + 3 <= usize::MAX,
                field == ds[0].field,
                p == field.p,
                field.p > 1,
                points_in_field(ds, field),
                points_in_field(vs, field),
                distinct_points(ds),
                h == differences_invertible(ds, field.p as nat),
                x@ == seq![field.element_of(0), field.element_of(1)],
                i <= n,
                acc.wf(),
                acc@.len() <= n,
                acc@.len() > 0 ==> acc.field_spec() == field,
                acc@ == lagrange_sum(ds, vs, i as nat),
                h ==> forall|k: int|
                    0 <= k < n ==> #[trigger] poly_eval(acc@, ds[k].value as int) % p == (if k < i {
                        vs[k].value as int
                    } else {
                        0
                    }),
            decreases n - i,
        {
            let vi = values[i];
            let di = domain[i];
            let mut basis = constant(vi);
            proof {
                assert forall|k: int| 0 <= k < n implies #[trigger] poly_eval(basis@, ds[k].value as int)
                    % p == vi.value as int by {
                    lemma_eval_constant(vi, ds[k].value as int);
                    lemma_small_mod(vi.value as nat, p as nat);
                }
            }
            let mut j: usize = 0;
            while j < n
                invariant
                    ds == domain@,
                    vs == values@,
                    n == ds.len(),
                    n == vs.len(),
                    n + 3 <= usize::MAX,
                    field == ds[0].field,
                    p == field.p,
                    field.p > 1,
                    points_in_field(ds, field),
                    points_in_field(vs, field),
                    distinct_points(ds),
                    h == differences_invertible(ds, field.p as nat),
                    x@ == seq![field.element_of(0), field.element_of(1)],
                    i < n,
                    vi == vs[i as int],
                    di == ds[i as int],
                    j <= n,
                    basis.wf(),
                    basis@ == lagrange_basis(ds, vs, i as int, j as nat),
                    basis@.len() <= 1 + j - (if i < j { 1int } else { 0 }),
                    basis@.len() > 0 ==> basis.field_spec() == field,
                    h ==> poly_eval(basis@, di.value as int) % p == vi.value as int,
                    h ==> forall|k: int|
                        0 <= k < n && k != i && k < j ==> #[trigger] poly_eval(
                            basis@,
                            ds[k].value as int,
                        ) % p == 0,
                decreases n - j,
            {
                if i == j {
                    j = j + 1;
                    continue;
                }
                let dj = domain[j];
                proof {
                    lemma_diff_nonzero(di.value as int, dj.value as int, p);
                }
                let numerator = linear(&x, dj);
                let diff = di - dj;
                let denominator_inverse = diff.inverse();
                let c = constant(denominator_inverse);
                let ghost b0 = basis@;
                let prod = basis * numerator;
                let ghost b1 = prod@;
                basis = prod * c;
                proof {
                    let c_val = denominator_inverse.value as int;
                    assert forall|k: int| 0 <= k < n implies #[trigger] poly_eval(basis@, ds[k].value as int)
                        % p == (poly_eval(b0, ds[k].value as int) * (ds[k].value - dj.value) * c_val) % p by {
                        let xk = ds[k].value as int;
                        lemma_eval_mul_any(b0, linear_factor(dj), xk, p);
                        lemma_eval_mul_any(b1, c@, xk, p);
                        lemma_eval_constant(denominator_inverse, xk);
                        lemma_eval_linear(dj, xk);
                        lemma_mul_mod_noop_left(poly_eval(b1, xk), c_val, p);
                        lemma_basis_step(
                            poly_eval(b0, xk),
                            poly_eval(linear_factor(dj), xk),
                            c_val,
                            xk - dj.value,
                            p,
                            poly_eval(basis@, xk),
                        );
                    }
                    if h {
                        // at d_i: v_i * (d_i - d_j) * inv == v_i
                        let dv = (di.value - dj.value) % p;
                        assert(spec_gcd(dv as nat, field.p as nat) == 1);
                        lemma_inverse_cancels(diff);
                        lemma_small_mod(1, field.p as nat);
                        lemma_mod_bound(di.value - dj.value, p);
                        lemma_small_mod(dv as nat, field.p as nat);
                        assert((dv * c_val) % p == 1);
                        let e0 = poly_eval(b0, di.value as int);
                        lemma_mul_is_associative(e0, di.value - dj.value, c_val);
                        lemma_mul_mod_noop_right(e0, (di.value - dj.value) * c_val, p);
                        lemma_mul_mod_noop_left(di.value - dj.value, c_val, p);
                        lemma_mul_mod_noop_right(e0, 1, p);
                        lemma_mul_mod_noop_left(e0, 1, p);
                        lemma_mul_basics(e0);
                        assert(poly_eval(basis@, di.value as int) % p == e0 % p);
                        assert forall|k: int| 0 <= k < n && k != i && k < j + 1 implies #[trigger] poly_eval(
                            basis@,
                            ds[k].value as int,
                        ) % p == 0 by {
                            let ek = poly_eval(b0, ds[k].value as int);
                            lemma_mul_is_associative(ek, ds[k].value - dj.value, c_val);
                            lemma_mul_mod_noop_left(ek, (ds[k].value - dj.value) * c_val, p);
                            if k == j {
                                lemma_mul_basics(c_val);
                                lemma_mul_basics(ek);
                            } else {
                                lemma_mul_basics((ds[k].value - dj.value) * c_val);
                            }
                        }
                    }
                }
                j = j + 1;
            }
            let ghost a0 = acc@;
            acc = acc + basis;
            proof {
                if h {
                    assert forall|k: int| 0 <= k < n implies #[trigger] poly_eval(acc@, ds[k].value as int)
                        % p == (if k < i + 1 { vs[k].value as int } else { 0 }) by {
                        let xk = ds[k].value as int;
                        lemma_eval_add(a0, basis@, xk, p);
                        lemma_add_mod_noop(poly_eval(a0, xk), poly_eval(basis@, xk), p);
                        lemma_small_mod(vs[k].value as nat, p as nat);
                        lemma_small_mod(0, p as nat);
                        if k == i {
                            lemma_small_mod(vi.value as nat, p as nat);
                        }
                    }
                }
            }
            i = i + 1;
        }
        acc
    }
}

/// The inverse of `a − b` in the field of `a`.
pub open spec fn difference_inverse(a: FieldElement, b: FieldElement) -> FieldElement {
    let f = a.field;
    f.element_of(spec_inverse((f.element_of(a.value - b.value).value % f.p) as nat, f.p as nat) as int)
}

/// The Lagrange basis polynomial of point `i` scaled by its value, after
/// the factors of the first `j` other points:
/// `v_i · Π_{k<j, k≠i} (x − d_k) / (d_i − d_k)`.
pub open spec fn lagrange_basis(ds: Seq<FieldElement>, vs: Seq<FieldElement>, i: int, j: nat) -> Seq<FieldElement>
    decreases j,
{
    if j == 0 {
        strip_zeros(seq![vs[i]])
    } else {
        let k = j - 1;
        let b = lagrange_basis(ds, vs, i, k as nat);
        if k == i {
            b
        } else {
            poly_mul(poly_mul(b, linear_factor(ds[k])), strip_zeros(seq![difference_inverse(ds[i], ds[k])]))
        }
    }
}

/// The sum of the first `i` Lagrange terms of the points `ds` with values
/// `vs`: the interpolating polynomial when `i` is the number of points.
pub open spec fn lagrange_sum(ds: Seq<FieldElement>, vs: Seq<FieldElement>, i: nat) -> Seq<FieldElement>
    decreases i,
{
    if i == 0 {
        Seq::empty()
    } else {
        poly_add(lagrange_sum(ds, vs, (i - 1) as nat), lagrange_basis(ds, vs, i - 1, ds.len()))
    }
}

/// `shift` zero coefficients followed by `c`.
fn monomial(shift: usize, c: FieldElement) -> (m: Vec<FieldElement>)
    requires
        c.wf(),
        c.field.p > 0,
    ensures
        m@.len() == shift + 1,
        forall|k: int| 0 <= k < shift ==> (#[trigger] m@[k]) == c.field.element_of(0),
        m@[shift as int] == c,
        all_in_field(m@, c.field),
{
    let zero = c.field.zero();
    let mut m: Vec<FieldElement> = Vec::new();
    let mut k: usize = 0;
    while k < shift
        invariant
            k <= shift,
            m@.len() == k,
            zero == c.field.element_of(0),
            zero.wf(),
            forall|t: int| 0 <= t < k ==> (#[trigger] m@[t]) == zero,
        decreases shift - k,
    {
        m.push(zero);
        k = k + 1;
    }
    m.push(c);
    m
}

/// Subtracting `c x^s · d` from `r`, with `c · lc(d) = lc(r)` and
/// `deg r = s + deg d`, lowers the degree.
proof fn lemma_division_step_len(r: Seq<FieldElement>, d: Seq<FieldElement>, m: Seq<FieldElement>, c: FieldElement)
    requires
        poly_wf(r),
        poly_wf(d),
        r.len() >= d.len() > 0,
        r[0].field == d[0].field,
        c.field == d[0].field,
        c.wf(),
        c.value != 0,
        m.len() == r.len() - d.len() + 1,
        all_in_field(m, c.field),
        m.last() == c,
        (c.value * d.last().value) % (c.field.p as int) == r.last().value,
    ensures
        poly_sub(r, poly_mul(m, d)).len() < r.len(),
        poly_mul(m, d).len() == r.len(),
{
    let f = c.field;
    let p = f.p as int;
    assert(all_in_field(r, f));
    assert(all_in_field(d, f));
    let len = (m.len() + d.len() - 1) as nat;
    let full = Seq::new(len, |k: int| m[0].field.element_of(conv_upto(m, d, m.len(), k)));
    lemma_conv_top(m, d);
    assert(full.last().value == r.last().value);
    assert(strip_zeros(full) == full);
    let t = poly_mul(m, d);
    assert(t == full);
    let nt = t.map_values(|e: FieldElement| e.field.element_of(-e.value));
    lemma_strip_zeros(nt);
    let neg = poly_neg(t);
    let rl = r.last().value as int;
    // the top coefficient of -t is -lc(r), which is not zero
    lemma_mod_bound(-rl, p);
    assert(nt.last().value == (-rl) % p);
    assert(rl != 0);
    lemma_small_mod(rl as nat, p as nat);
    if (-rl) % p == 0 {
        lemma_add_mod_noop(rl, -rl, p);
        lemma_mod_self_0(p);
        lemma_small_mod(0, p as nat);
    }
    assert(nt.last().value != 0);
    assert(strip_zeros(nt) == nt);
    assert(neg == nt);
    assert(neg.len() == r.len());
    let sum = sum_coeffs(r, neg);
    assert(sum.len() == r.len());
    lemma_add_mod_noop_right(rl, -rl, p);
    lemma_small_mod(0, p as nat);
    assert(sum.last().value == 0);
    lemma_strip_zeros(sum);
    assert(strip_zeros(sum) == strip_zeros(sum.drop_last()));
    lemma_strip_zeros(sum.drop_last());
}

impl Polynomial {
    /// Divides `numerator` by `denominator`, returning `(quotient,
    /// remainder)`; `None` when dividing by the zero polynomial.  The
    /// leading coefficient of the denominator must be invertible (always
    /// the case in a prime field), or the long division would not end.
    pub fn divide(numerator: &Polynomial, denominator: &Polynomial) -> (r: Option<(Polynomial, Polynomial)>)
        requires
            compatible(numerator@, denominator@),
            numerator@.len() + 2 <= usize::MAX,
            denominator@.len() > 0 ==> denominator.field_spec().p > 1,
            denominator@.len() > 0 ==> spec_gcd(
                denominator@.last().value as nat,
                denominator.field_spec().p as nat,
            ) == 1,
        ensures
            r.is_none() <==> denominator@.len() == 0,
            r matches Some((q, rem)) ==> {
                &&& q.wf()
                &&& rem.wf()
                &&& q@ == quotient_of(numerator@, denominator@)
                &&& rem@ == remainder_of(numerator@, denominator@)
                &&& rem@.len() < denominator@.len()
                &&& (q@.len() > 0 ==> q@.len() + denominator@.len() <= numerator@.len() + 1)
                &&& (q@.len() > 0 ==> q.field_spec() == denominator.field_spec())
                &&& (rem@.len() > 0 ==> rem.field_spec() == denominator.field_spec())
                &&& forall|x: int| #[trigger] poly_eval(numerator@, x) % (denominator.field_spec().p as int) == (
                    poly_eval(q@, x) * poly_eval(denominator@, x) + poly_eval(rem@, x)) % (
                denominator.field_spec().p as int)
            },
    {
        if denominator.coefficients.len() == 0 {
            return None;
        }
        let ghost num = numerator@;
        let ghost den = denominator@;
        assert(all_in_field(den, den[0].field));
        let field = denominator.coefficients[0].field;
        let ghost p = field.p as int;
        if numerator.coefficients.len() < denominator.coefficients.len() {
            let empty: Vec<FieldElement> = Vec::new();
            let q = Polynomial::new(empty);
            proof {
                assert forall|x: int| #[trigger] poly_eval(num, x) % p == (poly_eval(q@, x) * poly_eval(den, x)
                    + poly_eval(num, x)) % p by {
                    assert(poly_eval(q@, x) == 0);
                    lemma_mul_basics(poly_eval(den, x));
                }
            }
            return Some((q, numerator.clone()));
        }
        let dl = denominator.coefficients.len();
        let d_lc = denominator.coefficients[dl - 1];
        let ql = numerator.coefficients.len() - dl + 1;
        let zero = field.zero();
        let mut q: Vec<FieldElement> = Vec::new();
        let mut k: usize = 0;
        while k < ql
            invariant
                k <= ql,
                q@.len() == k,
                zero == field.element_of(0),
                zero.wf(),
                forall|t: int| 0 <= t < k ==> (#[trigger] q@[t]) == zero,
            decreases ql - k,
        {
            q.push(zero);
            k = k + 1;
        }
        let mut remainder = numerator.clone();
        let ghost mut fuel: nat = num.len();
        let ghost zeros = Seq::new(ql as nat, |i: int| den[0].field.element_of(0));
        proof {
            assert(q@ =~= zeros);
            lemma_small_mod(0, field.p as nat);
            assert forall|x: int| #[trigger] poly_eval(num, x) % p == (poly_eval(q@, x) * poly_eval(den, x)
                + poly_eval(remainder@, x)) % p by {
                lemma_eval_same_coeffs(q@, Seq::<FieldElement>::empty(), x);
                lemma_mul_basics(poly_eval(den, x));
            }
        }
        while remainder.coefficients.len() != 0 && remainder.coefficients.len() >= dl
            invariant
                num == numerator@,
                den == denominator@,
                num.len() + 2 <= usize::MAX,
                poly_wf(num),
                poly_wf(den),
                dl == den.len(),
                dl > 0,
                field == den[0].field,
                p == field.p,
                field.p > 1,
                d_lc == den.last(),
                spec_gcd(d_lc.value as nat, field.p as nat) == 1,
                ql == num.len() - dl + 1,
                q@.len() == ql,
                all_in_field(q@, field),
                forall|t: int|
                    0 <= t < ql && t < remainder@.len() - dl + 1 ==> (#[trigger] q@[t]).value == 0,
                remainder.wf(),
                remainder@.len() <= num.len(),
                fuel >= remainder@.len(),
                poly_rem(remainder@, den, fuel) == remainder_of(num, den),
                poly_quot(remainder@, den, fuel, q@) == poly_quot(num, den, num.len(), zeros),
                remainder@.len() > 0 ==> remainder.field_spec() == field,
                forall|x: int| #[trigger] poly_eval(num, x) % p == (poly_eval(q@, x) * poly_eval(den, x)
                    + poly_eval(remainder@, x)) % p,
            decreases remainder@.len(),
        {
            let ghost rem0 = remainder@;
            let ghost q0 = q@;
            let rl = remainder.coefficients.len();
            assert(all_in_field(rem0, field));
            let r_lc = remainder.coefficients[rl - 1];
            let coefficient = r_lc / d_lc;
            let shift = rl - dl;
            let m = monomial(shift, coefficient);
            let ghost mv = m@;
            let mono = Polynomial::new(m);
            proof {
                // c * lc(d) == lc(r)
                let inv = spec_inverse(d_lc.value as nat, field.p as nat) as int;
                lemma_inverse_cancels(d_lc);
                lemma_small_mod(d_lc.value as nat, field.p as nat);
                lemma_small_mod(1, field.p as nat);
                lemma_mod_bound(spec_xgcd(d_lc.value as nat, field.p as nat).0, p);
                lemma_small_mod(inv as nat, field.p as nat);
                assert((d_lc.value * inv) % p == 1);
                let cv = coefficient.value as int;
                assert(cv == (r_lc.value * inv) % p);
                lemma_mul_mod_noop_left(r_lc.value * inv, d_lc.value as int, p);
                lemma_mul_is_associative(r_lc.value as int, inv, d_lc.value as int);
                lemma_mul_is_commutative(inv, d_lc.value as int);
                lemma_mul_mod_noop_right(r_lc.value as int, inv * d_lc.value, p);
                lemma_mul_basics(r_lc.value as int);
                lemma_small_mod(r_lc.value as nat, field.p as nat);
                assert((cv * d_lc.value) % p == r_lc.value);
                if cv == 0 {
                    lemma_mul_basics(d_lc.value as int);
                    lemma_small_mod(0, field.p as nat);
                }
                assert(strip_zeros(mv) == mv);
                lemma_division_step_len(rem0, den, mv, coefficient);
            }
            let dcopy = denominator.clone();
            let subtractee = mono * dcopy;
            q.set(shift, coefficient);
            remainder = remainder - subtractee;
            proof {
                let c = coefficient;
                assert(mv =~= monomial_seq(shift as nat, c));
                assert(remainder@ == division_step(rem0, den));
                assert(c == step_coefficient(rem0, den));
                assert(q@ == q0.update(shift as int, c));
                fuel = (fuel - 1) as nat;
                assert forall|x: int| #[trigger] poly_eval(num, x) % p == (poly_eval(q@, x) * poly_eval(den, x)
                    + poly_eval(remainder@, x)) % p by {
                    let ed = poly_eval(den, x);
                    let eq0 = poly_eval(q0, x);
                    let er0 = poly_eval(rem0, x);
                    let mono_v = c.value * pow(x, shift as nat);
                    lemma_eval_update(q0, shift as int, c, x);
                    lemma_eval_monomial(mv, shift as nat, c, x);
                    let t = poly_mul(mv, den);
                    lemma_eval_mul(mv, den, x);
                    lemma_eval_neg(t, x, p);
                    lemma_eval_add(rem0, poly_neg(t), x, p);
                    // eval(rem) == er0 - mono_v * ed  (mod p)
                    let er = poly_eval(remainder@, x);
                    let et = poly_eval(t, x);
                    lemma_add_mod_noop(er0, poly_eval(poly_neg(t), x), p);
                    lemma_add_mod_noop(er0, -et, p);
                    lemma_sub_mod_noop(er0, et, p);
                    lemma_sub_mod_noop(er0, mono_v * ed, p);
                    assert(er % p == (er0 - mono_v * ed) % p);
                    // eval(q) == eq0 + mono_v
                    lemma_mul_is_distributive_add_other_way(ed, eq0, mono_v);
                    lemma_add_mod_noop((eq0 + mono_v) * ed, er, p);
                    lemma_add_mod_noop((eq0 + mono_v) * ed, er0 - mono_v * ed, p);
                    lemma_mod_twice(er, p);
                    lemma_mod_twice(er0 - mono_v * ed, p);
                }
                assert(all_in_field(q@, field));
            }
        }
        let quotient = Polynomial::new(q);
        proof {
            assert(poly_quot(remainder@, den, fuel, q@) == q@);
            assert(quotient@ == quotient_of(num, den));
            assert forall|x: int| #[trigger] poly_eval(num, x) % p == (poly_eval(quotient@, x) * poly_eval(den, x)
                + poly_eval(remainder@, x)) % p by {
                lemma_strip_zeros(q@);
                lemma_eval_same_coeffs(quotient@, q@, x);
            }
            lemma_strip_zeros(q@);
        }
        Some((quotient, remainder))
    }
}

/// The requirements under which long division by `rhs` runs.
pub open spec fn divisible_by(lhs: Seq<FieldElement>, rhs: Seq<FieldElement>) -> bool {
    &&& compatible(lhs, rhs)
    &&& lhs.len() + 2 <= usize::MAX
    &&& rhs.len() > 0
    &&& rhs[0].field.p > 1
    &&& spec_gcd(rhs.last().value as nat, rhs[0].field.p as nat) == 1
}

impl core::ops::Div for Polynomial {
    type Output = Polynomial;

    /// Exact division: the quotient when the remainder is zero.
    fn div(self, rhs: Polynomial) -> (r: Polynomial)
        ensures
            r.wf(),
            r@.len() > 0 ==> r.field_spec() == rhs.field_spec(),
            forall|x: int| #[trigger] poly_eval(self@, x) % (rhs.field_spec().p as int) == (poly_eval(r@, x)
                * poly_eval(rhs@, x)) % (rhs.field_spec().p as int),
    {
        match Polynomial::divide(&self, &rhs) {
            Some((quotient, remainder)) => {
                proof {
                    assert forall|x: int| #[trigger] poly_eval(self@, x) % (rhs.field_spec().p as int) == (
                    poly_eval(quotient@, x) * poly_eval(rhs@, x)) % (rhs.field_spec().p as int) by {
                        assert(poly_eval(remainder@, x) == 0);
                    }
                }
                quotient
            },
            None => self,
        }
    }
}

impl vstd::std_specs::ops::DivSpecImpl for Polynomial {
    open spec fn obeys_div_spec() -> bool {
        false
    }

    open spec fn div_req(self, rhs: Polynomial) -> bool {
        divisible_by(self@, rhs@) && remainder_of(self@, rhs@).len() == 0
    }

    open spec fn div_spec(self, rhs: Polynomial) -> Polynomial {
        self
    }
}

impl core::ops::Rem for Polynomial {
    type Output = Polynomial;

    /// The remainder of long division.
    fn rem(self, rhs: Polynomial) -> (r: Polynomial)
        ensures
            r@ == remainder_of(self@, rhs@),
            r.wf(),
            r@.len() < rhs@.len(),
    {
        match Polynomial::divide(&self, &rhs) {
            Some((_, remainder)) => remainder,
            None => self,
        }
    }
}

impl vstd::std_specs::ops::RemSpecImpl for Polynomial {
    open spec fn obeys_rem_spec() -> bool {
        false
    }

    open spec fn rem_req(self, rhs: Polynomial) -> bool {
        divisible_by(self@, rhs@)
    }

    open spec fn rem_spec(self, rhs: Polynomial) -> Polynomial {
        self
    }
}

impl core::ops::BitXor<u64> for Polynomial {
    type Output = Polynomial;

    /// `self ^ e` is exponentiation.
    fn bitxor(self, rhs: u64) -> (r: Polynomial)
        ensures
            r@ == poly_pow(self@, rhs as nat),
            r.wf(),
    {
        self.pow(rhs)
    }
}

impl vstd::std_specs::ops::BitXorSpecImpl<u64> for Polynomial {
    open spec fn obeys_bitxor_spec() -> bool {
        false
    }

    open spec fn bitxor_req(self, rhs: u64) -> bool {
        &&& poly_wf(self@)
        &&& (self@.len() > 0 ==> self.field_spec().p > 0)
        &&& self@.len() * (rhs as int + 1) <= usize::MAX
    }

    open spec fn bitxor_spec(self, rhs: u64) -> Polynomial {
        self
    }
}

/// Every point satisfies `y = a + b x` modulo `p`.
pub open spec fn on_line(points: Seq<(FieldElement, FieldElement)>, a: int, b: int, p: int) -> bool {
    forall|i: int| 0 <= i < points.len() ==> (a + b * (#[trigger] points[i]).0.value) % p == points[i].1.value
}

/// The polynomial interpolating the points has at most two coefficients.
pub open spec fn interpolant_is_linear(points: Seq<(FieldElement, FieldElement)>) -> bool {
    lagrange_sum(
        points.map_values(|q: (FieldElement, FieldElement)| q.0),
        points.map_values(|q: (FieldElement, FieldElement)| q.1),
        points.len(),
    ).len() <= 2
}

/// Returns `true` when all points lie on a line: the polynomial
/// interpolating them has degree at most one.
pub fn test_colinearity(points: &[(FieldElement, FieldElement)]) -> (r: bool)
    requires
        points@.len() > 0,
        points@.len() + 3 <= usize::MAX,
        points@[0].0.field.p > 1,
        forall|i: int|
            0 <= i < points@.len() ==> (#[trigger] points@[i]).0.field == points@[0].0.field
                && points@[i].1.field == points@[0].0.field && points@[i].0.wf() && points@[i].1.wf(),
        forall|i: int, j: int|
            0 <= i < points@.len() && 0 <= j < points@.len() && i != j ==> points@[i].0.value
                != points@[j].0.value,
    ensures
        r && differences_invertible(points@.map_values(|q: (FieldElement, FieldElement)| q.0), points@[0].0.field.p as nat)
            ==> exists|a: int, b: int| #[trigger] on_line(points@, a, b, points@[0].0.field.p as int),
        r == interpolant_is_linear(points@),
        crate::field::prime::is_prime(points@[0].0.field.p as int) && (exists|a: int, b: int|
            #[trigger] on_line(points@, a, b, points@[0].0.field.p as int)) ==> r,
{
    proof {
        if crate::field::prime::is_prime(points@[0].0.field.p as int) && (exists|a: int, b: int|
            #[trigger] on_line(points@, a, b, points@[0].0.field.p as int)) {
            let (a, b) = choose|a: int, b: int| #[trigger] on_line(points@, a, b, points@[0].0.field.p as int);
            crate::polynomial::roots::lemma_line_is_linear(points@, a, b);
        }
    }
    let ghost f = points@[0].0.field;
    let ghost p = f.p as int;
    let mut domain: Vec<FieldElement> = Vec::new();
    let mut values: Vec<FieldElement> = Vec::new();
    let mut i: usize = 0;
    while i < points.len()
        invariant
            i <= points@.len(),
            domain@ == points@.map_values(|q: (FieldElement, FieldElement)| q.0).take(i as int),
            values@ == points@.map_values(|q: (FieldElement, FieldElement)| q.1).take(i as int),
        decreases points@.len() - i,
    {
        let (x, y) = points[i];
        domain.push(x);
        values.push(y);
        i = i + 1;
        proof {
            assert(domain@ =~= points@.map_values(|q: (FieldElement, FieldElement)| q.0).take(i as int));
            assert(values@ =~= points@.map_values(|q: (FieldElement, FieldElement)| q.1).take(i as int));
        }
    }
    proof {
        assert(domain@ =~= points@.map_values(|q: (FieldElement, FieldElement)| q.0));
        assert(values@ =~= points@.map_values(|q: (FieldElement, FieldElement)| q.1));
    }
    let polynomial = Polynomial::interpolate_domain(domain.as_slice(), values.as_slice());
    let result = polynomial.coefficients.len() <= 2;
    proof {
        if result && differences_invertible(domain@, p as nat) {
            let a = coeff(polynomial@, 0);
            let b = coeff(polynomial@, 1);
            assert forall|k: int| 0 <= k < points@.len() implies (a + b * (#[trigger] points@[k]).0.value) % p
                == points@[k].1.value by {
                let x = points@[k].0.value as int;
                assert(domain@[k].value == x);
                reveal_with_fuel(eval_upto, 3);
                reveal_with_fuel(pow, 2);
                lemma_eval_upto_beyond(polynomial@, x, 2);
                lemma_mul_basics(a);
                lemma_mul_basics(x);
                assert(poly_eval(polynomial@, x) == a + b * x);
            }
            assert(on_line(points@, a, b, p));
        }
    }
    result
}

} // verus!
