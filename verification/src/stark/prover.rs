//! The STARK prover: interpolates the randomized trace, divides out the
//! boundary and transition zerofiers, commits to the quotients, combines
//! them with transcript weights and proves the combination low-degree
//! with FRI.

use vstd::prelude::*;

use rand::rngs::OsRng;
use rand::TryRngCore;

use vstd::arithmetic::power::*;
use vstd::arithmetic::power2::*;

use crate::crypto::merkle::{byte_views, hashed_leaves, merkle_path};
use crate::field::{Field, FieldElement, MAIN_PRIME};
use crate::fri::{all_distinct, codeword_leaves, codeword_root, merkle_commit_codeword, merkle_open_codeword, Fri};
use crate::polynomial::{
    poly_views, differences_invertible, distinct_points, eval_upto, lagrange_sum, points_in_field, poly_add, poly_eval, poly_mul, poly_pow, poly_sub,
    poly_scale, quotient_of,
    remainder_of, strip_zeros, zerofier, Polynomial,
};
use crate::stark::item::{StarkProofItem, StarkProofStream};
use crate::stark::verify::dup_positions;
use crate::math::{lemma_gcd_one, spec_gcd};
use crate::polynomial::multivariate::{symbolic_cost, symbolic_sum, term_views, MPolynomial};
use crate::bytes::copy_bytes;
use crate::crypto::encoding::list_encoding;
use crate::fri::item::{FriProofItem, FriProofStream};
use crate::fri::fold::codeword_in_field;
use crate::fri::{commits_layers, kept_indices, queries_written};
use crate::crypto::digest::{blake2b512_digest, shake256_output};
use crate::crypto::proof_stream::challenge_input;
use crate::field::bytes_to_nat;
use crate::stark::params::{
    bit_length, bits_of, boundary_interpolant, boundary_points, boundary_zerofier, lemma_bits_of, lemma_weighted_degree_grows, max_quotient_degree,
    max_term_degree, register_boundary, term_degree, weighted_degree, BoundaryConstraint, Stark,
};

verus! {

/// Fills a buffer of `num_bytes` bytes from the operating system's random
/// source, through `rand::rngs::OsRng` and `TryRngCore::try_fill_bytes`.
/// Trusted: when the source answers, the buffer has the requested length;
/// its contents are not stated (they are random), and `None` comes back
/// when the source fails.
#[verifier::external_body]
pub(crate) fn os_random_bytes(num_bytes: usize) -> (r: Option<Vec<u8>>)
    ensures
        r matches Some(b) ==> b@.len() == num_bytes,
{
    let mut bytes = vec![0u8; num_bytes];
    match OsRng.try_fill_bytes(&mut bytes) {
        Ok(()) => Some(bytes),
        Err(_) => None,
    }
}

/// The sequence is in ascending order.
pub open spec fn ascending(s: Seq<usize>) -> bool {
    forall|i: int, j: int| 0 <= i < j < s.len() ==> s[i] <= s[j]
}

/// Sorts indices in ascending order (insertion sort); the result holds the
/// same indices, each as often as before.
pub fn sort_indices(v: &Vec<usize>) -> (r: Vec<usize>)
    ensures
        ascending(r@),
        r@.to_multiset() == v@.to_multiset(),
        r@.len() == v@.len(),
{
    let mut r: Vec<usize> = Vec::new();
    let mut i: usize = 0;
    proof {
        assert(v@.take(0) =~= Seq::<usize>::empty());
    }
    while i < v.len()
        invariant
            i <= v@.len(),
            ascending(r@),
            r@.to_multiset() == v@.take(i as int).to_multiset(),
            r@.len() == i,
        decreases v@.len() - i,
    {
        let x = v[i];
        let mut pos: usize = 0;
        while pos < r.len() && r[pos] <= x
            invariant
                pos <= r@.len(),
                forall|k: int| 0 <= k < pos ==> r@[k] <= x,
            decreases r@.len() - pos,
        {
            pos = pos + 1;
        }
        let ghost before = r@;
        r.insert(pos, x);
        proof {
            assert(r@ == before.insert(pos as int, x));
            assert forall|a: int, b: int| 0 <= a < b < r@.len() implies r@[a] <= r@[b] by {
                if b < pos {
                    assert(r@[a] == before[a] && r@[b] == before[b]);
                } else if b == pos {
                    assert(r@[a] == before[a]);
                } else if a < pos {
                    assert(r@[a] == before[a] && r@[b] == before[b - 1]);
                    if pos < before.len() {
                        assert(before[pos as int] > x);
                        assert(before[pos as int] <= before[b - 1]);
                    }
                } else if a == pos {
                    assert(r@[b] == before[b - 1]);
                    assert(before[pos as int] > x);
                    assert(before[pos as int] <= before[b - 1]);
                } else {
                    assert(r@[a] == before[a - 1] && r@[b] == before[b - 1]);
                }
            }
            vstd::seq_lib::to_multiset_insert(before, pos as int, x);
            assert(v@.take(i + 1) =~= v@.take(i as int).push(x));
            vstd::seq_lib::to_multiset_build(v@.take(i as int), x);
        }
        i = i + 1;
    }
    proof {
        assert(v@.take(i as int) =~= v@);
    }
    r
}


/// A polynomial over `f`: well-formed, and of field `f` unless zero.
pub open spec fn poly_over(q: Polynomial, f: Field) -> bool {
    q.wf() && (q@.len() > 0 ==> q.field_spec() == f)
}

/// The first `n` powers of `g`: the trace domain.
pub open spec fn powers(g: FieldElement, n: nat) -> Seq<FieldElement> {
    Seq::new(n, |i: int| g.field.element_of(pow(g.value as int, i as nat)))
}

/// The rows of a trace as sequences of elements.
pub open spec fn row_views(rows: Seq<Vec<FieldElement>>) -> Seq<Seq<FieldElement>> {
    rows.map_values(|r: Vec<FieldElement>| r@)
}

/// Column `k` of some rows.
pub open spec fn column_of(rows: Seq<Seq<FieldElement>>, k: int) -> Seq<FieldElement> {
    Seq::new(rows.len(), |i: int| rows[i][k])
}

/// Every row holds at least `width` well-formed elements of `f`.
pub open spec fn rows_over(rows: Seq<Vec<FieldElement>>, width: nat, f: Field) -> bool {
    &&& forall|i: int| 0 <= i < rows.len() ==> (#[trigger] rows[i]@).len() >= width
    &&& forall|i: int, r: int|
        0 <= i < rows.len() && 0 <= r < width ==> (#[trigger] rows[i]@[r]).wf() && rows[i]@[r].field == f
}

impl Stark {
    /// The polynomial of register `k`: it interpolates column `k` of the
    /// rows on the powers of omicron.
    pub open spec fn trace_poly_spec(&self, rows: Seq<Seq<FieldElement>>, k: int) -> Seq<FieldElement> {
        lagrange_sum(powers(self.omicron_spec(), rows.len()), column_of(rows, k), rows.len())
    }

    /// The polynomials of all registers.
    pub open spec fn trace_poly_views(&self, rows: Seq<Seq<FieldElement>>) -> Seq<Seq<FieldElement>> {
        Seq::new(self.num_registers_spec(), |k: int| self.trace_poly_spec(rows, k))
    }

    /// Interpolates one polynomial per register through the rows of a
    /// trace on the powers of omicron; `None` when the trace is empty or
    /// two of those powers coincide.
    pub fn trace_polynomials(&self, rows: &Vec<Vec<FieldElement>>) -> (r: Option<Vec<Polynomial>>)
        requires
            rows@.len() + 3 <= usize::MAX,
            rows_over(rows@, self.num_registers_spec(), self.field_spec()),
        ensures
            r is Some <==> rows@.len() > 0 && distinct_points(powers(self.omicron_spec(), rows@.len())),
            r matches Some(ps) ==> {
                &&& ps@.len() == self.num_registers_spec()
                &&& forall|k: int| 0 <= k < ps@.len() ==> poly_over(#[trigger] ps@[k], self.field_spec())
                    && ps@[k]@.len() <= rows@.len()
                &&& poly_views(ps@) == self.trace_poly_views(row_views(rows@))
                &&& differences_invertible(powers(self.omicron_spec(), rows@.len()), self.field_spec().p as nat)
                    ==> forall|k: int, i: int|
                    0 <= k < ps@.len() && 0 <= i < rows@.len() ==> #[trigger] poly_eval(ps@[k]@, powers(self.omicron_spec(), rows@.len())[i].value as int)
                        % (self.field_spec().p as int) == rows@[i]@[k].value
            },
    {
        proof {
            use_type_invariant(self);
            self.lemma_inv();
        }
        let n = rows.len();
        let omicron = *self.omicron();
        let mut domain: Vec<FieldElement> = Vec::new();
        let mut i: usize = 0;
        while i < n
            invariant
                omicron == self.omicron_spec(),
                omicron.wf() && omicron.field == self.field_spec(),
                self.field_spec().p == MAIN_PRIME,
                n == rows@.len(),
                i <= n,
                domain@ == powers(omicron, n as nat).take(i as int),
            decreases n - i,
        {
            domain.push(omicron.pow(i as u64));
            i = i + 1;
            proof {
                assert(domain@ =~= powers(omicron, n as nat).take(i as int));
            }
        }
        proof {
            assert(domain@ =~= powers(omicron, n as nat));
        }
        if n == 0 || !all_distinct(&domain) {
            return None;
        }
        proof {
            assert forall|j: int| 0 <= j < domain@.len() implies (#[trigger] domain@[j]).field == domain@[0].field
                && domain@[j].wf() by {
                vstd::arithmetic::div_mod::lemma_mod_bound(pow(omicron.value as int, j as nat), MAIN_PRIME as int);
                vstd::arithmetic::div_mod::lemma_mod_bound(pow(omicron.value as int, 0), MAIN_PRIME as int);
            }
        }
        let width = self.register_count();
        let mut ps: Vec<Polynomial> = Vec::new();
        let mut k: usize = 0;
        while k < width
            invariant
                width == self.num_registers_spec(),
                n == rows@.len(),
                n > 0,
                n + 3 <= usize::MAX,
                domain@ == powers(omicron, n as nat),
                omicron == self.omicron_spec(),
                omicron.field == self.field_spec(),
                self.field_spec().p == MAIN_PRIME,
                points_in_field(domain@, domain@[0].field),
                domain@[0].field == self.field_spec(),
                distinct_points(domain@),
                rows_over(rows@, self.num_registers_spec(), self.field_spec()),
                k <= width,
                ps@.len() == k,
                forall|j: int| 0 <= j < k ==> poly_over(#[trigger] ps@[j], self.field_spec()) && ps@[j]@.len() <= n,
                forall|j: int| 0 <= j < k ==> (#[trigger] ps@[j])@ == self.trace_poly_spec(row_views(rows@), j),
                differences_invertible(domain@, self.field_spec().p as nat) ==> forall|j: int, t: int|
                    0 <= j < k && 0 <= t < n ==> #[trigger] poly_eval(ps@[j]@, domain@[t].value as int)
                        % (self.field_spec().p as int) == rows@[t]@[j].value,
            decreases width - k,
        {
            let mut column: Vec<FieldElement> = Vec::new();
            let mut t: usize = 0;
            while t < n
                invariant
                    n == rows@.len(),
                    k < width,
                    width == self.num_registers_spec(),
                    rows_over(rows@, self.num_registers_spec(), self.field_spec()),
                    t <= n,
                    column@.len() == t,
                    forall|u: int| 0 <= u < t ==> #[trigger] column@[u] == rows@[u]@[k as int],
                decreases n - t,
            {
                assert(rows@[t as int]@.len() >= width);
                column.push(rows[t][k]);
                t = t + 1;
            }
            proof {
                assert forall|u: int| 0 <= u < column@.len() implies (#[trigger] column@[u]).field == domain@[0].field
                    && column@[u].wf() by {
                    assert(column@[u] == rows@[u]@[k as int]);
                }
            }
            let q = Polynomial::interpolate_domain(domain.as_slice(), column.as_slice());
            proof {
                assert(column@ =~= column_of(row_views(rows@), k as int));
            }
            ps.push(q);
            k = k + 1;
        }
        proof {
            assert(poly_views(ps@) =~= self.trace_poly_views(row_views(rows@)));
        }
        Some(ps)
    }
}


impl Stark {
    /// The boundary constraints of each register sit at distinct points of
    /// the trace domain.
    pub open spec fn boundary_points_distinct_spec(&self, boundary: Seq<BoundaryConstraint>) -> bool {
        forall|r: nat| r < self.num_registers_spec() ==> distinct_points(
            #[trigger] boundary_points(boundary, r, self.omicron_spec()),
        )
    }

    /// Whether the boundary constraints of each register sit at distinct
    /// points of the trace domain (interpolation needs that).
    pub fn boundary_points_distinct(&self, boundary: &[BoundaryConstraint]) -> (b: bool)
        ensures
            b == self.boundary_points_distinct_spec(boundary@),
    {
        proof {
            use_type_invariant(self);
            self.lemma_inv();
        }
        let omicron = *self.omicron();
        let width = self.register_count();
        let mut r: usize = 0;
        while r < width
            invariant
                width == self.num_registers_spec(),
                omicron == self.omicron_spec(),
                omicron.field.p > 0,
                r <= width,
                forall|k: nat| k < r ==> distinct_points(#[trigger] boundary_points(boundary@, k, omicron)),
            decreases width - r,
        {
            let (points, _values) = register_boundary(boundary, r, omicron);
            if !all_distinct(&points) {
                return false;
            }
            r = r + 1;
        }
        true
    }

    /// Divides the difference of each trace polynomial and its boundary
    /// interpolant by the register's boundary zerofier.  `None` when the
    /// boundary points of a register coincide or a division leaves a
    /// remainder (the trace does not meet its boundary constraints).
    pub fn boundary_quotients(&self, trace_polys: &Vec<Polynomial>, boundary: &[BoundaryConstraint]) -> (r: Option<Vec<Polynomial>>)
        requires
            trace_polys@.len() == self.num_registers_spec(),
            forall|k: int| 0 <= k < trace_polys@.len() ==> poly_over(#[trigger] trace_polys@[k], self.field_spec())
                && trace_polys@[k]@.len() + 3 <= usize::MAX,
            boundary@.len() + 3 <= usize::MAX,
            forall|i: int| 0 <= i < boundary@.len() ==> (#[trigger] boundary@[i]).2.wf() && boundary@[i].2.field == self.field_spec(),
        ensures
            r matches Some(qs) ==> {
                &&& qs@.len() == self.num_registers_spec()
                &&& forall|k: int| 0 <= k < qs@.len() ==> poly_over(#[trigger] qs@[k], self.field_spec())
                    && (qs@[k]@.len() <= trace_polys@[k]@.len() || qs@[k]@.len() <= boundary@.len())
            },
            !self.boundary_points_distinct_spec(boundary@) ==> r is None,
            r is Some <==> self.boundary_points_distinct_spec(boundary@) && forall|k: int|
                0 <= k < self.num_registers_spec() ==> remainder_of(
                    poly_sub((#[trigger] trace_polys@[k])@, boundary_interpolant(boundary@, k as nat, self.omicron_spec())),
                    boundary_zerofier(boundary@, k as nat, self.omicron_spec()),
                ).len() == 0,
            r matches Some(qs) ==> forall|k: int|
                0 <= k < qs@.len() ==> (#[trigger] qs@[k])@ == quotient_of(
                    poly_sub(trace_polys@[k]@, boundary_interpolant(boundary@, k as nat, self.omicron_spec())),
                    boundary_zerofier(boundary@, k as nat, self.omicron_spec()),
                ),
            r matches Some(qs) ==> forall|k: int, z: int|
                0 <= k < qs@.len() ==> (#[trigger] poly_eval(qs@[k]@, z) * poly_eval(
                    boundary_zerofier(boundary@, k as nat, self.omicron_spec()),
                    z,
                )) % (self.field_spec().p as int) == poly_eval(
                    poly_sub(trace_polys@[k]@, boundary_interpolant(boundary@, k as nat, self.omicron_spec())),
                    z,
                ) % (self.field_spec().p as int),
    {
        proof {
            use_type_invariant(self);
            self.lemma_inv();
        }
        if !self.boundary_points_distinct(boundary) {
            return None;
        }
        let interpolants = self.boundary_interpolants(boundary);
        let zerofiers = self.boundary_zerofiers(boundary);
        let width = self.register_count();
        proof {
            assert forall|j: nat| j < width implies #[trigger] boundary_points(boundary@, j, self.omicron_spec()).len() <= boundary@.len() by {
                crate::stark::params::lemma_boundary_lengths(boundary@, j, self.omicron_spec());
            }
        }
        let mut qs: Vec<Polynomial> = Vec::new();
        let mut k: usize = 0;
        while k < width
            invariant
                width == self.num_registers_spec(),
                self.field_spec().p == MAIN_PRIME,
                trace_polys@.len() == width,
                forall|j: int| 0 <= j < trace_polys@.len() ==> poly_over(#[trigger] trace_polys@[j], self.field_spec())
                    && trace_polys@[j]@.len() + 3 <= usize::MAX,
                boundary@.len() + 3 <= usize::MAX,
                interpolants@.len() == width,
                forall|j: int|
                    0 <= j < interpolants@.len() ==> poly_over(#[trigger] interpolants@[j], self.field_spec())
                        && interpolants@[j]@.len() <= boundary_points(boundary@, j as nat, self.omicron_spec()).len(),
                zerofiers@.len() == width,
                forall|j: int|
                    0 <= j < zerofiers@.len() ==> (#[trigger] zerofiers@[j]).wf() && zerofiers@[j].field_spec() == self.field_spec()
                        && zerofiers@[j]@.len() > 0 && zerofiers@[j]@.last().value == 1,
                k <= width,
                qs@.len() == k,
                forall|j: int| 0 <= j < k ==> poly_over(#[trigger] qs@[j], self.field_spec())
                    && (qs@[j]@.len() <= trace_polys@[j]@.len() || qs@[j]@.len() <= boundary@.len()),
                forall|j: nat| j < width ==> #[trigger] boundary_points(boundary@, j, self.omicron_spec()).len() <= boundary@.len(),
                forall|j: int|
                    0 <= j < width ==> (#[trigger] interpolants@[j])@ == boundary_interpolant(boundary@, j as nat, self.omicron_spec())
                        && zerofiers@[j]@ == boundary_zerofier(boundary@, j as nat, self.omicron_spec()),
                forall|j: int|
                    0 <= j < k ==> (#[trigger] qs@[j])@ == quotient_of(
                        poly_sub(trace_polys@[j]@, boundary_interpolant(boundary@, j as nat, self.omicron_spec())),
                        boundary_zerofier(boundary@, j as nat, self.omicron_spec()),
                    ),
                forall|j: int|
                    0 <= j < k ==> remainder_of(
                        poly_sub((#[trigger] trace_polys@[j])@, boundary_interpolant(boundary@, j as nat, self.omicron_spec())),
                        boundary_zerofier(boundary@, j as nat, self.omicron_spec()),
                    ).len() == 0,
                forall|j: int, z: int|
                    0 <= j < k ==> (#[trigger] poly_eval(qs@[j]@, z) * poly_eval(
                        boundary_zerofier(boundary@, j as nat, self.omicron_spec()),
                        z,
                    )) % (self.field_spec().p as int) == poly_eval(
                        poly_sub(trace_polys@[j]@, boundary_interpolant(boundary@, j as nat, self.omicron_spec())),
                        z,
                    ) % (self.field_spec().p as int),
            decreases width - k,
        {
            assert(boundary_points(boundary@, k as nat, self.omicron_spec()).len() <= boundary@.len());
            let numerator = trace_polys[k].clone() - interpolants[k].clone();
            proof {
                lemma_gcd_one(MAIN_PRIME as nat);
            }
            proof {
                assert(numerator@ == poly_sub(trace_polys@[k as int]@, boundary_interpolant(boundary@, k as nat, self.omicron_spec())));
            }
            match Polynomial::divide(&numerator, &zerofiers[k]) {
                Some((q, rem)) => {
                    if !rem.is_zero() {
                        proof {
                            assert(trace_polys@[k as int] == trace_polys@[k as int]);
                        }
                        return None;
                    }
                    let ghost old_qs = qs@;
                    qs.push(q);
                    proof {
                        assert forall|j: int, z: int|
                            0 <= j < k + 1 implies (#[trigger] poly_eval(qs@[j]@, z) * poly_eval(
                                boundary_zerofier(boundary@, j as nat, self.omicron_spec()),
                                z,
                            )) % (self.field_spec().p as int) == poly_eval(
                                poly_sub(trace_polys@[j]@, boundary_interpolant(boundary@, j as nat, self.omicron_spec())),
                                z,
                            ) % (self.field_spec().p as int) by {
                            if j < k {
                                assert(qs@[j] == old_qs[j]);
                            } else {
                                assert(qs@[j] == q);
                                assert(rem@.len() == 0);
                                assert(poly_eval(rem@, z) == 0) by {
                                    reveal(eval_upto);
                                }
                            }
                        }
                    }
                },
                None => {
                    return None;
                },
            }
            k = k + 1;
        }
        Some(qs)
    }
}


/// Every term of `c` names no more variables than `point` has, and its
/// symbolic evaluation fits the machine's sizes.
pub open spec fn symbolic_fits(c: Seq<(Seq<usize>, FieldElement)>, point: Seq<Seq<FieldElement>>) -> bool {
    forall|i: int|
        0 <= i < c.len() ==> (#[trigger] c[i]).0.len() <= point.len() && symbolic_cost(c[i].0, point, c[i].0.len())
            <= usize::MAX
}

/// Decides [`symbolic_fits`].
pub fn check_symbolic_fits(c: &MPolynomial, point: &[Polynomial]) -> (b: bool)
    ensures
        b == symbolic_fits(c@, poly_views(point@)),
{
    let terms = c.dictionary();
    let mut i: usize = 0;
    while i < terms.len()
        invariant
            term_views(terms@) == c@,
            i <= terms@.len(),
            forall|k: int| 0 <= k < i ==> (#[trigger] c@[k]).0.len() <= point@.len() && symbolic_cost(c@[k].0, poly_views(point@), c@[k].0.len())
                <= usize::MAX,
        decreases terms@.len() - i,
    {
        let e = &terms[i].0;
        let ghost ev = e@;
        proof {
            assert(c@[i as int].0 == ev);
        }
        if e.len() > point.len() {
            return false;
        }
        let mut cost: usize = 2;
        let mut t: usize = 0;
        while t < e.len()
            invariant
                ev == e@,
                term_views(terms@) == c@,
                i < terms@.len(),
                c@[i as int].0 == ev,
                e@.len() <= point@.len(),
                t <= e@.len(),
                cost == symbolic_cost(ev, poly_views(point@), t as nat),
            decreases e@.len() - t,
        {
            let size = point[t].coefficients().len() as u128;
            let factor = e[t] as u128 + 1;
            proof {
                assert(size * factor <= 0xFFFF_FFFF_FFFF_FFFFu128 * 0x1_0000_0000_0000_0000u128) by (nonlinear_arith)
                    requires
                        size <= 0xFFFF_FFFF_FFFF_FFFFu128,
                        factor <= 0x1_0000_0000_0000_0000u128,
                ;
            }
            let term: u128 = size * factor;
            if term > (usize::MAX - cost) as u128 {
                proof {
                    assert(poly_views(point@)[t as int] == point@[t as int]@);
                    assert(symbolic_cost(ev, poly_views(point@), (t + 1) as nat) == cost + point@[t as int]@.len() * (ev[t as int] + 1));
                    lemma_cost_grows(ev, poly_views(point@), (t + 1) as nat, ev.len());
                    assert(c@[i as int].0 == ev);
                    assert(!symbolic_fits(c@, poly_views(point@)));
                }
                return false;
            }
            cost = cost + term as usize;
            t = t + 1;
        }
        i = i + 1;
    }
    true
}

/// The symbolic cost grows with the number of factors, by nonnegative
/// steps.
proof fn lemma_cost_grows(e: Seq<usize>, pts: Seq<Seq<FieldElement>>, n: nat, m: nat)
    requires
        n <= m,
    ensures
        symbolic_cost(e, pts, n) <= symbolic_cost(e, pts, m),
    decreases m,
{
    if n < m {
        let k = (m - 1) as int;
        assert(pts[k].len() * (e[k] + 1) >= 0) by (nonlinear_arith);
        lemma_cost_grows(e, pts, n, (m - 1) as nat);
    }
}

impl Stark {
    /// The symbolic point of the transition constraints: `x`, then the
    /// trace polynomials, then the trace polynomials at `omicron · x`.
    pub fn symbolic_point(&self, trace_polys: &Vec<Polynomial>) -> (point: Vec<Polynomial>)
        requires
            forall|k: int| 0 <= k < trace_polys@.len() ==> poly_over(#[trigger] trace_polys@[k], self.field_spec()),
        ensures
            point@.len() == 1 + 2 * trace_polys@.len(),
            forall|t: int| 0 <= t < point@.len() ==> poly_over(#[trigger] point@[t], self.field_spec()),
            poly_views(point@) == self.symbolic_point_spec(poly_views(trace_polys@)),
    {
        proof {
            use_type_invariant(self);
            self.lemma_inv();
        }
        let field = self.field();
        let omicron = *self.omicron();
        let coefficients = vec![field.zero(), field.one()];
        proof {
            assert(coefficients@ =~= seq![field.element_of(0), field.element_of(1)]);
        }
        let x = Polynomial::new(coefficients);
        let ghost xv = x@;
        let ghost tpv = poly_views(trace_polys@);
        let mut point: Vec<Polynomial> = Vec::new();
        point.push(x);
        proof {
            assert(poly_views(point@) =~= seq![xv] + tpv.take(0));
        }
        let mut k: usize = 0;
        while k < trace_polys.len()
            invariant
                k <= trace_polys@.len(),
                point@.len() == 1 + k,
                forall|t: int| 0 <= t < point@.len() ==> poly_over(#[trigger] point@[t], field),
                forall|j: int| 0 <= j < trace_polys@.len() ==> poly_over(#[trigger] trace_polys@[j], field),
                tpv == poly_views(trace_polys@),
                poly_views(point@) == seq![xv] + tpv.take(k as int),
            decreases trace_polys@.len() - k,
        {
            let q = trace_polys[k].clone();
            assert(poly_over(trace_polys@[k as int], field));
            let ghost before = point@;
            point.push(q);
            proof {
                assert(poly_views(point@) =~= seq![xv] + tpv.take(k + 1)) by {
                    assert(poly_views(before) == seq![xv] + tpv.take(k as int));
                    assert(point@ == before.push(q));
                    assert(tpv[k as int] == q@);
                    crate::polynomial::lemma_poly_views_push(before, q);
                    assert(tpv.take(k + 1) =~= tpv.take(k as int).push(q@));
                    assert((seq![xv] + tpv.take(k as int)).push(q@) =~= seq![xv] + tpv.take(k as int).push(q@));
                }
            }
            k = k + 1;
        }
        proof {
            assert(tpv.take(trace_polys@.len() as int) =~= tpv);
        }
        let mut k: usize = 0;
        while k < trace_polys.len()
            invariant
                k <= trace_polys@.len(),
                point@.len() == 1 + trace_polys@.len() + k,
                omicron.wf(),
                omicron.field == field,
                forall|t: int| 0 <= t < point@.len() ==> poly_over(#[trigger] point@[t], field),
                forall|j: int| 0 <= j < trace_polys@.len() ==> poly_over(#[trigger] trace_polys@[j], field),
                tpv == poly_views(trace_polys@),
                poly_views(point@) == seq![xv] + tpv + tpv.take(k as int).map_values(|q: Seq<FieldElement>| poly_scale(q, omicron)),
            decreases trace_polys@.len() - k,
        {
            assert(poly_over(trace_polys@[k as int], field));
            let q = trace_polys[k].scale(&omicron);
            let ghost before = point@;
            point.push(q);
            proof {
                assert(poly_views(point@) =~= seq![xv] + tpv + tpv.take(k + 1).map_values(|q: Seq<FieldElement>| poly_scale(q, omicron))) by {
                    assert(poly_views(before) == seq![xv] + tpv + tpv.take(k as int).map_values(|q: Seq<FieldElement>| poly_scale(q, omicron)));
                    assert(point@ == before.push(q));
                    assert(tpv[k as int] == trace_polys@[k as int]@);
                    crate::polynomial::lemma_poly_views_push(before, q);
                    let sc = |q: Seq<FieldElement>| poly_scale(q, omicron);
                    assert(tpv.take(k + 1).map_values(sc) =~= tpv.take(k as int).map_values(sc).push(q@));
                    assert((seq![xv] + tpv + tpv.take(k as int).map_values(sc)).push(q@) =~= seq![xv] + tpv
                        + tpv.take(k as int).map_values(sc).push(q@));
                }
            }
            k = k + 1;
        }
        proof {
            assert(tpv.take(trace_polys@.len() as int) =~= tpv);
            assert(xv == strip_zeros(seq![self.field_spec().element_of(0), self.field_spec().element_of(1)]));
            assert(poly_views(point@) =~= self.symbolic_point_spec(tpv));
        }
        point
    }

    /// The symbolic point over the given trace polynomials: `x`, then the
    /// polynomials, then the polynomials at `omicron · x`.
    pub open spec fn symbolic_point_spec(&self, tps: Seq<Seq<FieldElement>>) -> Seq<Seq<FieldElement>> {
        seq![strip_zeros(seq![self.field_spec().element_of(0), self.field_spec().element_of(1)])] + tps
            + tps.map_values(|q: Seq<FieldElement>| poly_scale(q, self.omicron_spec()))
    }

    /// The transition zerofier: vanishing on the first `T − 1` points of
    /// the trace domain.
    pub open spec fn transition_zerofier_spec(&self) -> Seq<FieldElement> {
        zerofier(self.omicron_domain_spec().take(self.trace_length_spec() - 1), self.field_spec())
    }

    /// A transition constraint fits the symbolic point, its value there
    /// fits the sizes of a `usize`, and the transition zerofier divides it.
    pub open spec fn transition_divides(&self, c: MPolynomial, point: Seq<Seq<FieldElement>>) -> bool {
        let value = symbolic_sum(c@, point, c@.len());
        &&& symbolic_fits(c@, point)
        &&& value.len() <= usize::MAX - 2
        &&& remainder_of(value, self.transition_zerofier_spec()).len() == 0
    }

    /// Evaluates each transition constraint at the symbolic point and
    /// divides the result by the transition zerofier.  `None` when a
    /// constraint does not fit the symbolic point, or a division leaves a
    /// remainder (the trace does not meet the constraint).
    pub fn transition_quotients(&self, point: &Vec<Polynomial>, constraints: &[MPolynomial]) -> (r: Option<Vec<Polynomial>>)
        requires
            1 <= self.trace_length_spec() <= self.omicron_domain_spec().len() + 1,
            forall|t: int| 0 <= t < point@.len() ==> poly_over(#[trigger] point@[t], self.field_spec()),
            forall|i: int| 0 <= i < constraints@.len() && (#[trigger] constraints@[i])@.len() > 0 ==> constraints@[i].field_spec() == self.field_spec(),
        ensures
            r matches Some(qs) ==> {
                &&& qs@.len() == constraints@.len()
                &&& forall|k: int| 0 <= k < qs@.len() ==> poly_over(#[trigger] qs@[k], self.field_spec())
            },
            (exists|i: int| 0 <= i < constraints@.len() && !symbolic_fits(#[trigger] constraints@[i]@, poly_views(point@))) ==> r is None,
            r is Some <==> forall|i: int| 0 <= i < constraints@.len() ==> self.transition_divides(#[trigger] constraints@[i], poly_views(point@)),
            r matches Some(qs) ==> forall|k: int|
                0 <= k < qs@.len() ==> (#[trigger] qs@[k])@ == quotient_of(
                    symbolic_sum(constraints@[k]@, poly_views(point@), constraints@[k]@.len()),
                    self.transition_zerofier_spec(),
                ),
            r matches Some(qs) ==> forall|k: int, z: int|
                0 <= k < qs@.len() ==> (#[trigger] poly_eval(qs@[k]@, z) * poly_eval(self.transition_zerofier_spec(), z)) % (
                self.field_spec().p as int) == poly_eval(symbolic_sum(constraints@[k]@, poly_views(point@), constraints@[k]@.len()), z) % (
                self.field_spec().p as int),
    {
        proof {
            use_type_invariant(self);
            self.lemma_inv();
        }
        let zerofier = self.transition_zerofier();
        proof {
            lemma_gcd_one(MAIN_PRIME as nat);
        }
        let mut qs: Vec<Polynomial> = Vec::new();
        let mut i: usize = 0;
        while i < constraints.len()
            invariant
                self.field_spec().p == MAIN_PRIME,
                spec_gcd(1, MAIN_PRIME as nat) == 1,
                zerofier.wf(),
                zerofier.field_spec() == self.field_spec(),
                zerofier@.len() > 0,
                zerofier@.last().value == 1,
                forall|t: int| 0 <= t < point@.len() ==> poly_over(#[trigger] point@[t], self.field_spec()),
                forall|j: int| 0 <= j < constraints@.len() && (#[trigger] constraints@[j])@.len() > 0 ==> constraints@[j].field_spec() == self.field_spec(),
                i <= constraints@.len(),
                qs@.len() == i,
                forall|k: int| 0 <= k < i ==> poly_over(#[trigger] qs@[k], self.field_spec()),
                forall|k: int| 0 <= k < i ==> symbolic_fits(#[trigger] constraints@[k]@, poly_views(point@)),
                zerofier@ == self.transition_zerofier_spec(),
                forall|k: int| 0 <= k < i ==> self.transition_divides(#[trigger] constraints@[k], poly_views(point@)),
                forall|k: int|
                    0 <= k < i ==> (#[trigger] qs@[k])@ == quotient_of(
                        symbolic_sum(constraints@[k]@, poly_views(point@), constraints@[k]@.len()),
                        self.transition_zerofier_spec(),
                    ),
                forall|k: int, z: int|
                    0 <= k < i ==> (#[trigger] poly_eval(qs@[k]@, z) * poly_eval(self.transition_zerofier_spec(), z)) % (
                    self.field_spec().p as int) == poly_eval(symbolic_sum(constraints@[k]@, poly_views(point@), constraints@[k]@.len()), z) % (
                    self.field_spec().p as int),
            decreases constraints@.len() - i,
        {
            if !check_symbolic_fits(&constraints[i], point.as_slice()) {
                proof {
                    assert(!self.transition_divides(constraints@[i as int], poly_views(point@)));
                }
                return None;
            }
            let value = constraints[i].evaluate_symbolic(point.as_slice());
            if value.coefficients().len() > usize::MAX - 2 {
                proof {
                    assert(!self.transition_divides(constraints@[i as int], poly_views(point@)));
                }
                return None;
            }
            match Polynomial::divide(&value, &zerofier) {
                Some((q, rem)) => {
                    if !rem.is_zero() {
                        proof {
                            assert(!self.transition_divides(constraints@[i as int], poly_views(point@)));
                        }
                        return None;
                    }
                    let ghost old_qs = qs@;
                    qs.push(q);
                    proof {
                        assert forall|k: int, z: int|
                            0 <= k < i + 1 implies (#[trigger] poly_eval(qs@[k]@, z) * poly_eval(self.transition_zerofier_spec(), z)) % (
                            self.field_spec().p as int) == poly_eval(symbolic_sum(constraints@[k]@, poly_views(point@), constraints@[k]@.len()), z) % (
                            self.field_spec().p as int) by {
                            if k < i {
                                assert(qs@[k] == old_qs[k]);
                            } else {
                                assert(qs@[k] == q);
                                assert(poly_eval(rem@, z) == 0) by {
                                    reveal(eval_upto);
                                }
                            }
                        }
                    }
                },
                None => {
                    return None;
                },
            }
            i = i + 1;
        }
        Some(qs)
    }
}


/// The coefficients of `acc + w · term`.
pub open spec fn weighted_sum(acc: Seq<FieldElement>, w: FieldElement, term: Seq<FieldElement>) -> Seq<FieldElement> {
    poly_add(acc, poly_mul(strip_zeros(seq![w]), term))
}

/// The coefficients of `x^shift · q` over `f`.
pub open spec fn shifted_by(q: Seq<FieldElement>, shift: nat, f: Field) -> Seq<FieldElement> {
    poly_mul(poly_pow(strip_zeros(seq![f.element_of(0), f.element_of(1)]), shift), q)
}

/// `x^shift · q` can be formed within the sizes of a `usize`.
pub open spec fn shift_fits(q: Seq<FieldElement>, shift: nat, f: Field) -> bool {
    &&& shift <= usize::MAX / 2 - 1
    &&& poly_pow(strip_zeros(seq![f.element_of(0), f.element_of(1)]), shift).len() <= usize::MAX - q.len()
}

/// The coefficients of the combination `acc` followed by the first `k`
/// quotients of `qs`, the weights of quotient `j` taken from
/// `base + 2 j` on: the quotient weighted, then the quotient shifted up by
/// `x^(max_degree − bound)`, weighted.
pub open spec fn combined_upto(
    acc: Seq<FieldElement>,
    qs: Seq<Seq<FieldElement>>,
    bounds: Seq<usize>,
    max_degree: int,
    ws: Seq<FieldElement>,
    base: int,
    f: Field,
    k: nat,
) -> Seq<FieldElement>
    decreases k,
{
    if k == 0 {
        acc
    } else {
        let j = k - 1;
        let prev = combined_upto(acc, qs, bounds, max_degree, ws, base, f, j as nat);
        let q = qs[j];
        weighted_sum(
            weighted_sum(prev, ws[base + 2 * j], q),
            ws[base + 2 * j + 1],
            shifted_by(q, (max_degree - bounds[j]) as nat, f),
        )
    }
}

/// Each quotient of `qs` fits the sizes of a `usize`, has a degree bound
/// of at most `max_degree`, and can be shifted up to it.
pub open spec fn quotients_fit(qs: Seq<Seq<FieldElement>>, bounds: Seq<usize>, max_degree: int, f: Field) -> bool {
    forall|j: int|
        0 <= j < qs.len() ==> (#[trigger] qs[j]).len() <= usize::MAX - 1 && bounds[j] <= max_degree && shift_fits(
            qs[j],
            (max_degree - bounds[j]) as nat,
            f,
        )
}

/// `acc + w · term`; `None` when the sizes would not fit a `usize`.
fn add_weighted(acc: Polynomial, w: FieldElement, term: &Polynomial, f: Field) -> (r: Option<Polynomial>)
    requires
        f.p == MAIN_PRIME,
        poly_over(acc, f),
        poly_over(*term, f),
        w.wf(),
        w.field == f,
    ensures
        r matches Some(c) ==> poly_over(c, f),
        r is Some <==> term@.len() <= usize::MAX - 1,
        r matches Some(c) ==> c@ == weighted_sum(acc@, w, term@),
{
    if term.coefficients().len() > usize::MAX - 1 {
        return None;
    }
    let single = vec![w];
    proof {
        assert(single@ =~= seq![w]);
    }
    let weight = Polynomial::new(single);
    proof {
        assert(seq![w].drop_last() =~= Seq::<FieldElement>::empty());
        reveal_with_fuel(crate::polynomial::strip_zeros, 2);
        assert(weight@.len() > 0 ==> weight@ == seq![w]);
    }
    let copy = term.clone();
    let scaled = weight * copy;
    Some(acc + scaled)
}

/// `x^shift · q`; `None` when the sizes would not fit a `usize`.
fn shifted(q: &Polynomial, shift: usize, f: Field) -> (r: Option<Polynomial>)
    requires
        f.p == MAIN_PRIME,
        poly_over(*q, f),
    ensures
        r matches Some(c) ==> poly_over(c, f),
        r is Some <==> shift_fits(q@, shift as nat, f),
        r matches Some(c) ==> c@ == shifted_by(q@, shift as nat, f),
        r matches Some(c) ==> c@.len() <= usize::MAX - 1,
{
    if shift > usize::MAX / 2 - 1 {
        return None;
    }
    let coefficients = vec![f.zero(), f.one()];
    let x = Polynomial::new(coefficients);
    proof {
        crate::polynomial::lemma_strip_zeros(coefficients@);
        assert(x@.len() <= 2);
    }
    let power = x.pow(shift as u64);
    if power.coefficients().len() > usize::MAX - q.coefficients().len() {
        return None;
    }
    Some(power * q.clone())
}

impl Stark {
    /// The nonlinear combination of the randomizer, of each transition
    /// quotient and of each boundary quotient, each quotient also shifted
    /// up to the maximal degree by a power of `x`, weighted by `weights`.
    /// `None` when a quotient's degree bound exceeds the maximal degree or
    /// the sizes would not fit a `usize`.
    pub fn combination(
        &self,
        randomizer: Polynomial,
        transition_quotients: &Vec<Polynomial>,
        transition_bounds: &Vec<usize>,
        boundary_quotients: &Vec<Polynomial>,
        boundary_bounds: &Vec<usize>,
        max_degree: usize,
        weights: &Vec<FieldElement>,
    ) -> (r: Option<Polynomial>)
        requires
            poly_over(randomizer, self.field_spec()),
            forall|k: int| 0 <= k < transition_quotients@.len() ==> poly_over(#[trigger] transition_quotients@[k], self.field_spec()),
            forall|k: int| 0 <= k < boundary_quotients@.len() ==> poly_over(#[trigger] boundary_quotients@[k], self.field_spec()),
            transition_bounds@.len() == transition_quotients@.len(),
            boundary_bounds@.len() == boundary_quotients@.len(),
            weights@.len() == 1 + 2 * transition_quotients@.len() + 2 * boundary_quotients@.len(),
            forall|k: int| 0 <= k < weights@.len() ==> (#[trigger] weights@[k]).wf() && weights@[k].field == self.field_spec(),
        ensures
            r matches Some(c) ==> poly_over(c, self.field_spec()),
            (exists|k: int| 0 <= k < transition_bounds@.len() && #[trigger] transition_bounds@[k] > max_degree)
                || (exists|k: int| 0 <= k < boundary_bounds@.len() && #[trigger] boundary_bounds@[k] > max_degree) ==> r is None,
            r is Some <==> randomizer@.len() <= usize::MAX - 1 && quotients_fit(poly_views(transition_quotients@),
                transition_bounds@,
                max_degree as int,
                self.field_spec(),
            ) && quotients_fit(poly_views(boundary_quotients@), boundary_bounds@, max_degree as int, self.field_spec()),
            r matches Some(c) ==> c@ == combined_upto(
                combined_upto(
                    weighted_sum(Seq::empty(), weights@[0], randomizer@),
                    poly_views(transition_quotients@),
                    transition_bounds@,
                    max_degree as int,
                    weights@,
                    1,
                    self.field_spec(),
                    transition_quotients@.len(),
                ),
                poly_views(boundary_quotients@),
                boundary_bounds@,
                max_degree as int,
                weights@,
                (1 + 2 * transition_quotients@.len()) as int,
                self.field_spec(),
                boundary_quotients@.len(),
            ),
    {
        proof {
            use_type_invariant(self);
            self.lemma_inv();
        }
        let f = self.field();
        let empty: Vec<FieldElement> = Vec::new();
        proof {
            assert(empty@ =~= Seq::<FieldElement>::empty());
        }
        let zero = Polynomial::new(empty);
        proof {
            assert(zero@ =~= Seq::<FieldElement>::empty());
        }
        let mut acc = match add_weighted(zero, weights[0], &randomizer, f) {
            Some(c) => c,
            None => {
                return None;
            },
        };
        let ghost start = acc@;
        let ghost md = max_degree as int;
        let mut w: usize = 1;
        let mut k: usize = 0;
        let nw = weights.len();
        while k < transition_quotients.len()
            invariant
                nw == weights@.len(),
                f == self.field_spec(),
                f.p == MAIN_PRIME,
                poly_over(acc, f),
                forall|j: int| 0 <= j < transition_quotients@.len() ==> poly_over(#[trigger] transition_quotients@[j], f),
                transition_bounds@.len() == transition_quotients@.len(),
                weights@.len() == 1 + 2 * transition_quotients@.len() + 2 * boundary_quotients@.len(),
                forall|j: int| 0 <= j < weights@.len() ==> (#[trigger] weights@[j]).wf() && weights@[j].field == f,
                k <= transition_quotients@.len(),
                w == 1 + 2 * k,
                forall|j: int| 0 <= j < k ==> #[trigger] transition_bounds@[j] <= max_degree,
                randomizer@.len() <= usize::MAX - 1,
                start == weighted_sum(Seq::empty(), weights@[0], randomizer@),
                md == max_degree as int,
                acc@ == combined_upto(start, poly_views(transition_quotients@), transition_bounds@, md, weights@, 1, f, k as nat),
                forall|j: int|
                    0 <= j < k ==> (#[trigger] transition_quotients@[j])@.len() <= usize::MAX - 1 && transition_bounds@[j] <= md && shift_fits(
                        transition_quotients@[j]@,
                        (md - transition_bounds@[j]) as nat,
                        f,
                    ),
            decreases transition_quotients@.len() - k,
        {
            let q = &transition_quotients[k];
            acc = match add_weighted(acc, weights[w], q, f) {
                Some(c) => c,
                None => {
                    proof {
                        assert(!quotients_fit(poly_views(transition_quotients@), transition_bounds@, md, f)) by {
                            assert(transition_quotients@[k as int]@ == q@);
                            assert(poly_views(transition_quotients@)[k as int] == q@);
                        }
                    }
                    return None;
                },
            };
            if transition_bounds[k] > max_degree {
                proof {
                    assert(!quotients_fit(poly_views(transition_quotients@), transition_bounds@, md, f)) by {
                        assert(transition_quotients@[k as int]@ == q@);
                        assert(poly_views(transition_quotients@)[k as int] == q@);
                    }
                }
                return None;
            }
            let s = match shifted(q, max_degree - transition_bounds[k], f) {
                Some(c) => c,
                None => {
                    proof {
                        assert(!quotients_fit(poly_views(transition_quotients@), transition_bounds@, md, f)) by {
                            assert(transition_quotients@[k as int]@ == q@);
                            assert(poly_views(transition_quotients@)[k as int] == q@);
                        }
                    }
                    return None;
                },
            };
            acc = match add_weighted(acc, weights[w + 1], &s, f) {
                Some(c) => c,
                None => {
                    return None;
                },
            };
            proof {
                assert(acc@ == combined_upto(start, poly_views(transition_quotients@), transition_bounds@, md, weights@, 1, f, (k + 1) as nat));
            }
            w = w + 2;
            k = k + 1;
        }
        let ghost mid = acc@;
        proof {
            assert(quotients_fit(poly_views(transition_quotients@), transition_bounds@, md, f));
        }
        let mut k: usize = 0;
        while k < boundary_quotients.len()
            invariant
                nw == weights@.len(),
                f == self.field_spec(),
                f.p == MAIN_PRIME,
                poly_over(acc, f),
                forall|j: int| 0 <= j < boundary_quotients@.len() ==> poly_over(#[trigger] boundary_quotients@[j], f),
                boundary_bounds@.len() == boundary_quotients@.len(),
                weights@.len() == 1 + 2 * transition_quotients@.len() + 2 * boundary_quotients@.len(),
                forall|j: int| 0 <= j < weights@.len() ==> (#[trigger] weights@[j]).wf() && weights@[j].field == f,
                k <= boundary_quotients@.len(),
                w == 1 + 2 * transition_quotients@.len() + 2 * k,
                forall|j: int| 0 <= j < transition_bounds@.len() ==> #[trigger] transition_bounds@[j] <= max_degree,
                forall|j: int| 0 <= j < k ==> #[trigger] boundary_bounds@[j] <= max_degree,
                randomizer@.len() <= usize::MAX - 1,
                md == max_degree as int,
                quotients_fit(poly_views(transition_quotients@), transition_bounds@, md, f),
                acc@ == combined_upto(mid, poly_views(boundary_quotients@), boundary_bounds@, md, weights@, (1 + 2 * transition_quotients@.len()) as int, f, k as nat),
                forall|j: int|
                    0 <= j < k ==> (#[trigger] boundary_quotients@[j])@.len() <= usize::MAX - 1 && boundary_bounds@[j] <= md && shift_fits(
                        boundary_quotients@[j]@,
                        (md - boundary_bounds@[j]) as nat,
                        f,
                    ),
            decreases boundary_quotients@.len() - k,
        {
            let q = &boundary_quotients[k];
            acc = match add_weighted(acc, weights[w], q, f) {
                Some(c) => c,
                None => {
                    proof {
                        assert(!quotients_fit(poly_views(boundary_quotients@), boundary_bounds@, md, f)) by {
                            assert(boundary_quotients@[k as int]@ == q@);
                            assert(poly_views(boundary_quotients@)[k as int] == q@);
                        }
                    }
                    return None;
                },
            };
            if boundary_bounds[k] > max_degree {
                proof {
                    assert(!quotients_fit(poly_views(boundary_quotients@), boundary_bounds@, md, f)) by {
                        assert(boundary_quotients@[k as int]@ == q@);
                        assert(poly_views(boundary_quotients@)[k as int] == q@);
                    }
                }
                return None;
            }
            let s = match shifted(q, max_degree - boundary_bounds[k], f) {
                Some(c) => c,
                None => {
                    proof {
                        assert(!quotients_fit(poly_views(boundary_quotients@), boundary_bounds@, md, f)) by {
                            assert(boundary_quotients@[k as int]@ == q@);
                            assert(poly_views(boundary_quotients@)[k as int] == q@);
                        }
                    }
                    return None;
                },
            };
            acc = match add_weighted(acc, weights[w + 1], &s, f) {
                Some(c) => c,
                None => {
                    return None;
                },
            };
            proof {
                assert(acc@ == combined_upto(mid, poly_views(boundary_quotients@), boundary_bounds@, md, weights@, (1 + 2 * transition_quotients@.len()) as int, f, (k + 1) as nat));
            }
            w = w + 2;
            k = k + 1;
        }
        Some(acc)
    }
}


/// The objects at `at` and `at + 1` open codeword `c` at `index`: the
/// element there, then its authentication path.
pub open spec fn opens_at(items: Seq<StarkProofItem>, at: int, c: Seq<FieldElement>, index: int) -> bool {
    &&& items[at] == StarkProofItem::FieldElement(c[index])
    &&& items[at + 1] matches StarkProofItem::AuthenticationPath(path) && byte_views(path@) == merkle_path(
        index,
        hashed_leaves(codeword_leaves(c)),
    )
}

/// Pushes, for each position, the codeword's element there and its
/// authentication path.
fn push_openings(codeword: &Vec<FieldElement>, positions: &Vec<usize>, proof_stream: &mut StarkProofStream)
    requires
        is_pow2(codeword@.len() as int),
        codeword@.len() >= 2,
        forall|k: int| 0 <= k < positions@.len() ==> #[trigger] positions@[k] < codeword@.len(),
    ensures
        final(proof_stream).objects_view().len() == old(proof_stream).objects_view().len() + 2 * positions@.len(),
        final(proof_stream).objects_view().take(old(proof_stream).objects_view().len() as int)
            == old(proof_stream).objects_view(),
        final(proof_stream).prefix_view() == old(proof_stream).prefix_view(),
        final(proof_stream).read_view() == old(proof_stream).read_view(),
        forall|k: int|
            0 <= k < positions@.len() ==> opens_at(
                final(proof_stream).objects_view(),
                old(proof_stream).objects_view().len() + 2 * k,
                codeword@,
                #[trigger] positions@[k] as int,
            ),
{
    let ghost start = proof_stream.objects_view();
    let mut k: usize = 0;
    while k < positions.len()
        invariant
            is_pow2(codeword@.len() as int),
            codeword@.len() >= 2,
            forall|j: int| 0 <= j < positions@.len() ==> #[trigger] positions@[j] < codeword@.len(),
            k <= positions@.len(),
            proof_stream.objects_view().len() == start.len() + 2 * k,
            proof_stream.objects_view().take(start.len() as int) == start,
            proof_stream.prefix_view() == old(proof_stream).prefix_view(),
            proof_stream.read_view() == old(proof_stream).read_view(),
            start == old(proof_stream).objects_view(),
            forall|j: int|
                0 <= j < k ==> opens_at(proof_stream.objects_view(), start.len() + 2 * j, codeword@, #[trigger] positions@[j] as int),
        decreases positions@.len() - k,
    {
        let index = positions[k];
        let ghost before = proof_stream.objects_view();
        proof_stream.push(StarkProofItem::FieldElement(codeword[index]));
        let path = merkle_open_codeword(index, codeword.as_slice());
        proof_stream.push(StarkProofItem::AuthenticationPath(path));
        proof {
            let now = proof_stream.objects_view();
            assert(now.take(before.len() as int) =~= before);
            assert(now.take(start.len() as int) =~= start) by {
                assert(before.take(start.len() as int) == start);
            }
            assert forall|j: int|
                0 <= j < k + 1 implies opens_at(now, start.len() + 2 * j, codeword@, #[trigger] positions@[j] as int) by {
                if j < k {
                    assert(now[start.len() + 2 * j] == before[start.len() + 2 * j]);
                    assert(now[start.len() + 2 * j + 1] == before[start.len() + 2 * j + 1]);
                }
            }
        }
        k = k + 1;
    }
}

/// `(q + e) mod d` without overflow.
pub(crate) fn add_mod_usize(q: usize, e: usize, d: usize) -> (r: usize)
    requires
        d > 0,
        q < d,
    ensures
        r == (q + e) % (d as int),
        r < d,
{
    let e2 = e % d;
    let room = d - q;
    proof {
        vstd::arithmetic::div_mod::lemma_add_mod_noop(q as int, e as int, d as int);
        vstd::arithmetic::div_mod::lemma_small_mod(q as nat, d as nat);
    }
    if e2 < room {
        proof {
            vstd::arithmetic::div_mod::lemma_small_mod((q + e2) as nat, d as nat);
        }
        q + e2
    } else {
        proof {
            vstd::arithmetic::div_mod::lemma_mod_sub_multiples_vanish((q + e2) as int, d as int);
            vstd::arithmetic::div_mod::lemma_small_mod((e2 - room) as nat, d as nat);
        }
        e2 - room
    }
}

/// Every entry of `s` moved `c` further.
pub open spec fn offset_all(s: Seq<usize>, c: usize) -> Seq<usize> {
    s.map_values(|i: usize| (i + c) as usize)
}

/// Two sequences with the same entries, counted with multiplicity, keep
/// the same entries when each is moved by the same offset.
proof fn lemma_offset_multiset(a: Seq<usize>, b: Seq<usize>, c: usize)
    requires
        a.to_multiset() == b.to_multiset(),
    ensures
        offset_all(a, c).to_multiset() == offset_all(b, c).to_multiset(),
    decreases a.len(),
{
    broadcast use vstd::seq_lib::group_to_multiset_ensures;
    broadcast use vstd::multiset::group_multiset_axioms;

    if a.len() == 0 {
        vstd::seq_lib::to_multiset_len(a);
        vstd::seq_lib::to_multiset_len(b);
        assert(b.len() == 0);
        assert(offset_all(a, c) =~= Seq::<usize>::empty());
        assert(offset_all(b, c) =~= Seq::<usize>::empty());
    } else {
        let x = a.last();
        let a1 = a.drop_last();
        assert(a =~= a1.push(x));
        assert(a.to_multiset().count(x) > 0);
        assert(b.to_multiset().count(x) > 0);
        assert(b.contains(x));
        let j = b.index_of(x);
        let b1 = b.remove(j);
        assert(a1.to_multiset() =~= a.to_multiset().remove(x));
        assert(b1.to_multiset() =~= b.to_multiset().remove(x));
        lemma_offset_multiset(a1, b1, c);
        assert(offset_all(a, c) =~= offset_all(a1, c).push((x + c) as usize));
        assert(offset_all(b, c) =~= offset_all(b1, c).insert(j, (x + c) as usize));
    }
}

/// The positions opened by the prover: the FRI indices and their partners
/// half the domain away, in ascending order; and, for the trace, those
/// positions followed by the positions one trace step further.
pub fn query_positions(indices: &Vec<usize>, domain_length: usize, step: usize) -> (r: (Vec<usize>, Vec<usize>))
    requires
        domain_length > 0,
        domain_length % 2 == 0,
        forall|k: int| 0 <= k < indices@.len() ==> #[trigger] indices@[k] < domain_length / 2,
    ensures
        ascending(r.0@),
        r.0@.to_multiset() == (indices@ + offset_all(indices@, (domain_length / 2) as usize)).to_multiset(),
        r.0@.len() == 2 * indices@.len(),
        r.1@.len() == 2 * r.0@.len(),
        forall|k: int| 0 <= k < r.0@.len() ==> #[trigger] r.1@[k] == r.0@[k],
        forall|k: int| 0 <= k < r.0@.len() ==> #[trigger] r.1@[r.0@.len() + k] == (r.0@[k] + step) % (domain_length as int),
        forall|k: int| 0 <= k < r.1@.len() ==> #[trigger] r.1@[k] < domain_length,
        forall|k: int| 0 <= k < r.0@.len() ==> #[trigger] r.0@[k] < domain_length,
{
    let half = domain_length / 2;
    let sorted = sort_indices(indices);
    let mut both: Vec<usize> = Vec::new();
    let mut k: usize = 0;
    while k < sorted.len()
        invariant
            k <= sorted@.len(),
            both@ == sorted@.take(k as int),
        decreases sorted@.len() - k,
    {
        both.push(sorted[k]);
        k = k + 1;
        proof {
            assert(both@ =~= sorted@.take(k as int));
        }
    }
    proof {
        assert(sorted@.take(k as int) =~= sorted@);
        assert forall|j: int| 0 <= j < sorted@.len() implies #[trigger] sorted@[j] < half by {
            vstd::seq_lib::to_multiset_contains(sorted@, sorted@[j]);
            assert(indices@.to_multiset().count(sorted@[j]) > 0);
            vstd::seq_lib::to_multiset_contains(indices@, sorted@[j]);
        }
    }
    let mut k: usize = 0;
    while k < sorted.len()
        invariant
            half == domain_length / 2,
            domain_length % 2 == 0,
            k <= sorted@.len(),
            both@ == sorted@ + offset_all(sorted@.take(k as int), half),
            forall|j: int| 0 <= j < sorted@.len() ==> #[trigger] sorted@[j] < half,
        decreases sorted@.len() - k,
    {
        both.push(sorted[k] + half);
        k = k + 1;
        proof {
            assert(both@ =~= sorted@ + offset_all(sorted@.take(k as int), half));
        }
    }
    proof {
        assert(sorted@.take(k as int) =~= sorted@);
    }
    let queried = sort_indices(&both);
    proof {
        lemma_offset_multiset(sorted@, indices@, half);
        vstd::seq_lib::lemma_multiset_commutative(sorted@, offset_all(sorted@, half));
        vstd::seq_lib::lemma_multiset_commutative(indices@, offset_all(indices@, half));
        assert forall|j: int| 0 <= j < both@.len() implies #[trigger] both@[j] < domain_length by {
            if j >= sorted@.len() {
                assert(both@[j] == sorted@[j - sorted@.len()] + half);
            }
        }
        assert forall|j: int| 0 <= j < queried@.len() implies #[trigger] queried@[j] < domain_length by {
            vstd::seq_lib::to_multiset_contains(queried@, queried@[j]);
            vstd::seq_lib::to_multiset_contains(both@, queried@[j]);
        }
    }
    let mut dup: Vec<usize> = Vec::new();
    let mut k: usize = 0;
    while k < queried.len()
        invariant
            k <= queried@.len(),
            dup@ == queried@.take(k as int),
        decreases queried@.len() - k,
    {
        dup.push(queried[k]);
        k = k + 1;
        proof {
            assert(dup@ =~= queried@.take(k as int));
        }
    }
    let mut k: usize = 0;
    while k < queried.len()
        invariant
            domain_length > 0,
            k <= queried@.len(),
            dup@.len() == queried@.len() + k,
            forall|j: int| 0 <= j < queried@.len() ==> #[trigger] dup@[j] == queried@[j],
            forall|j: int| 0 <= j < k ==> #[trigger] dup@[queried@.len() + j] == (queried@[j] + step) % (domain_length as int),
            forall|j: int| 0 <= j < queried@.len() ==> #[trigger] queried@[j] < domain_length,
            forall|j: int| 0 <= j < dup@.len() ==> #[trigger] dup@[j] < domain_length,
        decreases queried@.len() - k,
    {
        let next = add_mod_usize(queried[k], step, domain_length);
        dup.push(next);
        k = k + 1;
    }
    (queried, dup)
}


/// The transcript objects from `base` on are a STARK proof's: one
/// Merkle root per register committing to a codeword of length `d`, the
/// randomizer's root, the FRI proof, then the openings of each register's
/// codeword at the duplicated positions (the queried positions, then each
/// one `step` further) and of the randomizer's codeword at the queried
/// positions, each opening authenticated against its root.
pub open spec fn layout_with(
    objs: Seq<StarkProofItem>,
    base: int,
    registers: nat,
    d: nat,
    step: nat,
    bcs: Seq<Seq<FieldElement>>,
    rc: Seq<FieldElement>,
    queried: Seq<usize>,
    dup: Seq<usize>,
) -> bool {
    let open_start = base + registers + 2;
    &&& bcs.len() == registers
    &&& forall|r: int| 0 <= r < registers ==> (#[trigger] bcs[r]).len() == d
    &&& rc.len() == d
    &&& dup.len() == 2 * queried.len()
    &&& dup.map_values(|u: usize| u as int) == dup_positions(queried, step, d)
    &&& forall|j: int| 0 <= j < dup.len() ==> #[trigger] dup[j] < d
    &&& forall|j: int| 0 <= j < queried.len() ==> #[trigger] queried[j] < d
    &&& objs.len() == open_start + 2 * (registers * dup.len()) + 2 * queried.len()
    &&& forall|r: int| 0 <= r < registers ==> is_boundary_root_of(#[trigger] objs[base + r], bcs[r])
    &&& is_randomizer_root_of(objs[base + registers], rc)
    &&& objs[base + registers + 1] is FriProof
    &&& forall|r: int, j: int|
        0 <= r < registers && 0 <= j < dup.len() ==> opens_at(
            objs,
            open_start + 2 * (r * dup.len()) + 2 * j,
            #[trigger] bcs[r],
            #[trigger] dup[j] as int,
        )
    &&& forall|j: int|
        0 <= j < queried.len() ==> opens_at(
            objs,
            open_start + 2 * (registers * dup.len()) + 2 * j,
            rc,
            #[trigger] queried[j] as int,
        )
}

/// The object is the Merkle root of a boundary quotient codeword `c`.
pub open spec fn is_boundary_root_of(item: StarkProofItem, c: Seq<FieldElement>) -> bool {
    item matches StarkProofItem::BoundaryQuotientRoot(root) && root@ == codeword_root(c)
}

/// The object is the Merkle root of the randomizer codeword `c`.
pub open spec fn is_randomizer_root_of(item: StarkProofItem, c: Seq<FieldElement>) -> bool {
    item matches StarkProofItem::RandomizerRoot(root) && root@ == codeword_root(c)
}

/// The FRI proof object `item` holds the encoding of a FRI transcript
/// `fobjs`, made under the Fiat-Shamir prefix `prefix`, that commits to the
/// layers of `codeword` (at least one per round, then the last in the
/// clear) and, with more than one round, samples the top-level `indices`
/// from itself and, when it sampled as many as tests, opens every round at
/// them.
#[verifier::opaque]
pub open spec fn fri_item_proves(
    fri: Fri,
    item: StarkProofItem,
    prefix: Seq<u8>,
    codeword: Seq<FieldElement>,
    indices: Seq<usize>,
) -> bool {
    let d = fri.domain_length_spec();
    let r = fri.rounds_spec();
    let t = fri.tests_spec();
    exists|fobjs: Seq<FriProofItem>, cws: Seq<Seq<FieldElement>>|
        #![trigger commits_layers(fobjs, 0, prefix, codeword, cws, r, fri.field_spec(), fri.offset_spec().value as int, fri.omega_spec().value as int)]
        {
            &&& item matches StarkProofItem::FriProof(b) && b@ == list_encoding(fobjs)
            &&& commits_layers(
                fobjs,
                0,
                prefix,
                codeword,
                cws,
                r,
                fri.field_spec(),
                fri.offset_spec().value as int,
                fri.omega_spec().value as int,
            )
            &&& fobjs.len() >= r + 1
            &&& indices.len() <= t
            &&& (r <= 1 ==> indices.len() == 0)
            &&& (r > 1 && indices.len() == t ==> queries_written(fobjs, 0, cws, indices, r, t) && fobjs.len() == r + 1 + (r
                - 1) * (4 * t))
            &&& (r > 1 ==> indices == kept_indices(
                shake256_output(challenge_input(prefix, fobjs, (r + 1) as int), 32),
                d / 2,
                d / pow2((r - 1) as nat),
                t,
                usize::MAX as nat,
            ))
        }
}

/// The values of polynomial `q` on the evaluation domain of `fri`.
pub open spec fn fri_codeword(q: Seq<FieldElement>, fri: Fri) -> Seq<FieldElement> {
    Seq::new(
        fri.domain_length_spec(),
        |i: int|
            fri.field_spec().element_of(
                poly_eval(
                    q,
                    fri.field_spec().element_of(fri.offset_spec().value * pow(fri.omega_spec().value as int, i as nat)).value as int,
                ),
            ),
    )
}

/// Some codewords and positions lay the transcript out as a STARK proof.
pub open spec fn proof_layout(objs: Seq<StarkProofItem>, base: int, registers: nat, d: nat, step: nat) -> bool {
    exists|bcs: Seq<Seq<FieldElement>>, rc: Seq<FieldElement>, queried: Seq<usize>, dup: Seq<usize>|
        layout_with(objs, base, registers, d, step, bcs, rc, queried, dup)
}


/// The degree of a polynomial, zero for the zero polynomial.
pub open spec fn degree_of(q: Seq<FieldElement>) -> int {
    if q.len() == 0 {
        0
    } else {
        q.len() - 1
    }
}

/// Each polynomial's degree (zero for the zero polynomial) is its bound.
fn degrees_match(qs: &Vec<Polynomial>, bounds: &Vec<usize>) -> (b: bool)
    ensures
        b == (qs@.len() == bounds@.len() && forall|i: int|
            0 <= i < qs@.len() ==> (if (#[trigger] qs@[i])@.len() == 0 {
                0
            } else {
                qs@[i]@.len() - 1
            }) == bounds@[i]),
{
    if qs.len() != bounds.len() {
        return false;
    }
    let mut i: usize = 0;
    while i < qs.len()
        invariant
            qs@.len() == bounds@.len(),
            i <= qs@.len(),
            forall|k: int|
                0 <= k < i ==> (if (#[trigger] qs@[k])@.len() == 0 {
                    0
                } else {
                    qs@[k]@.len() - 1
                }) == bounds@[k],
        decreases qs@.len() - i,
    {
        let len = qs[i].coefficients().len();
        let degree: usize = if len == 0 {
            0
        } else {
            len - 1
        };
        if degree != bounds[i] {
            return false;
        }
        i = i + 1;
    }
    true
}



/// An entry of a row of a trace of field elements.
proof fn lemma_row_entry(rows: Seq<Vec<FieldElement>>, width: nat, f: Field, i: int, r: int)
    requires
        rows_over(rows, width, f),
        0 <= i < rows.len(),
        0 <= r < width,
    ensures
        r < rows[i]@.len(),
        rows[i]@[r].wf(),
        rows[i]@[r].field == f,
{
    let x = rows[i]@[r];
    assert(rows[i]@.len() >= width);
    assert(x.wf());
}

/// A trace followed by more rows, all of field elements, is a trace of
/// field elements.
proof fn lemma_rows_concat(
    trace: Seq<Vec<FieldElement>>,
    extra: Seq<Vec<FieldElement>>,
    rows: Seq<Vec<FieldElement>>,
    width: nat,
    f: Field,
)
    requires
        rows_over(trace, width, f),
        rows_over(extra, width, f),
        rows.len() == trace.len() + extra.len(),
        forall|k: int| 0 <= k < trace.len() ==> (#[trigger] rows[k])@ == trace[k]@,
        forall|k: int| 0 <= k < extra.len() ==> (#[trigger] rows[trace.len() + k])@ == extra[k]@,
    ensures
        rows_over(rows, width, f),
{
    assert forall|i: int| 0 <= i < rows.len() implies (#[trigger] rows[i]@).len() >= width by {
        if i < trace.len() {
            assert(rows[i]@ == trace[i]@);
        } else {
            let k = i - trace.len();
            assert(rows[trace.len() + k]@ == extra[k]@);
        }
    }
    assert forall|i: int, r: int| 0 <= i < rows.len() && 0 <= r < width implies
        (#[trigger] rows[i]@[r]).wf() && rows[i]@[r].field == f by {
        if i < trace.len() {
            assert(rows[i]@ == trace[i]@);
            lemma_row_entry(trace, width, f, i, r);
        } else {
            let k = i - trace.len();
            assert(rows[trace.len() + k]@ == extra[k]@);
            lemma_row_entry(extra, width, f, k, r);
        }
    }
}

/// A copy of a row.
fn copy_row(row: &Vec<FieldElement>) -> (r: Vec<FieldElement>)
    ensures
        r@ == row@,
{
    let mut out: Vec<FieldElement> = Vec::new();
    let mut i: usize = 0;
    while i < row.len()
        invariant
            i <= row@.len(),
            out@ == row@.take(i as int),
        decreases row@.len() - i,
    {
        out.push(row[i]);
        i = i + 1;
        proof {
            assert(out@ =~= row@.take(i as int));
        }
    }
    proof {
        assert(row@.take(i as int) =~= row@);
    }
    out
}

impl Stark {
    /// What the prover and the verifier need of the AIR: boundary
    /// constraints with values in the field, a trace length that the trace
    /// domain covers, constraints over the field whose degree bounds fit
    /// the machine and reach the transition zerofier's degree.
    pub open spec fn air_ok(&self, constraints: Seq<MPolynomial>, boundary: Seq<BoundaryConstraint>) -> bool {
        &&& boundary.len() + 3 <= usize::MAX
        &&& forall|i: int| 0 <= i < boundary.len() ==> (#[trigger] boundary[i]).2.wf() && boundary[i].2.field == self.field_spec()
        &&& 1 <= self.trace_length_spec() <= self.omicron_domain_spec().len() + 1
        &&& forall|i: int| 0 <= i < constraints.len() && (#[trigger] constraints[i])@.len() > 0 ==> constraints[i].field_spec() == self.field_spec()
        &&& 1 + 2 * constraints.len() + 2 * self.num_registers_spec() <= usize::MAX
        &&& self.degrees_fit(constraints)
        &&& forall|i: int|
            0 <= i < constraints.len() ==> max_term_degree(#[trigger] constraints[i]@, self.point_degrees()) >= self.trace_length_spec() - 1
        &&& pow2(bits_of(max_quotient_degree(constraints, self.point_degrees(), self.trace_length_spec()) as nat)) <= usize::MAX
    }

    /// What the prover needs of its inputs: the AIR's requirements, a
    /// trace of field elements, and boundary constraints that fit the
    /// randomized trace.
    pub open spec fn prover_inputs_ok(
        &self,
        trace: Seq<Vec<FieldElement>>,
        constraints: Seq<MPolynomial>,
        boundary: Seq<BoundaryConstraint>,
        extra_rows: nat,
    ) -> bool {
        &&& self.air_ok(constraints, boundary)
        &&& rows_over(trace, self.num_registers_spec(), self.field_spec())
        &&& trace.len() + extra_rows + 3 <= usize::MAX
        &&& forall|r: nat| r < self.num_registers_spec() ==> (#[trigger] boundary_points(boundary, r, self.omicron_spec())).len()
            < trace.len() + extra_rows
    }

    /// The quotient of register `k`'s polynomial, less its boundary
    /// interpolant, by its boundary zerofier.
    pub open spec fn boundary_quotient_spec(
        &self,
        tps: Seq<Seq<FieldElement>>,
        boundary: Seq<BoundaryConstraint>,
        k: int,
    ) -> Seq<FieldElement> {
        quotient_of(
            poly_sub(tps[k], boundary_interpolant(boundary, k as nat, self.omicron_spec())),
            boundary_zerofier(boundary, k as nat, self.omicron_spec()),
        )
    }

    /// Each register's boundary zerofier divides the register's polynomial
    /// less its boundary interpolant.
    pub open spec fn boundary_divides(&self, tps: Seq<Seq<FieldElement>>, boundary: Seq<BoundaryConstraint>) -> bool {
        forall|k: int|
            0 <= k < self.num_registers_spec() ==> remainder_of(
                poly_sub(#[trigger] tps[k], boundary_interpolant(boundary, k as nat, self.omicron_spec())),
                boundary_zerofier(boundary, k as nat, self.omicron_spec()),
            ).len() == 0
    }

    /// The quotient of a transition constraint, evaluated at the symbolic
    /// point, by the transition zerofier.
    pub open spec fn transition_quotient_spec(&self, c: MPolynomial, point: Seq<Seq<FieldElement>>) -> Seq<FieldElement> {
        quotient_of(symbolic_sum(c@, point, c@.len()), self.transition_zerofier_spec())
    }

    /// The degree bounds of the transition quotients.
    pub open spec fn transition_bounds_spec(&self, cs: Seq<MPolynomial>) -> Seq<usize> {
        Seq::new(
            cs.len(),
            |i: int| (max_term_degree(cs[i]@, self.point_degrees()) - (self.trace_length_spec() - 1)) as usize,
        )
    }

    /// The degree bounds of the boundary quotients of a randomized trace of
    /// `n` rows.
    pub open spec fn boundary_bounds_spec(&self, n: nat, boundary: Seq<BoundaryConstraint>) -> Seq<usize> {
        Seq::new(
            self.num_registers_spec(),
            |r: int| (n - 1 - degree_of(boundary_zerofier(boundary, r as nat, self.omicron_spec()))) as usize,
        )
    }

    /// From `base` on, the transcript commits to the codewords of the
    /// boundary quotients of the randomized trace, register by register,
    /// then to the codeword of the randomizer polynomial.
    pub open spec fn proof_commits(
        &self,
        objs: Seq<StarkProofItem>,
        base: int,
        trace: Seq<Vec<FieldElement>>,
        boundary: Seq<BoundaryConstraint>,
        extra: Seq<Vec<FieldElement>>,
        coefficients: Seq<FieldElement>,
    ) -> bool {
        let tps = self.trace_poly_views(row_views(trace) + row_views(extra));
        &&& forall|r: int|
            0 <= r < self.num_registers_spec() ==> is_boundary_root_of(
                #[trigger] objs[base + r],
                fri_codeword(self.boundary_quotient_spec(tps, boundary, r), self.fri_spec()),
            )
        &&& is_randomizer_root_of(
            objs[base + self.num_registers_spec()],
            fri_codeword(strip_zeros(coefficients), self.fri_spec()),
        )
    }

    /// The weights the prover draws for the combination: field elements of
    /// the digests of the 32-byte challenge taken from the transcript up to
    /// the randomizer root (which stands `registers + 1` objects after
    /// `base`), followed by `i` zero bytes.
    pub open spec fn prover_weights(
        &self,
        objs: Seq<StarkProofItem>,
        base: int,
        prefix: Seq<u8>,
        number: nat,
    ) -> Seq<FieldElement> {
        let challenge = shake256_output(challenge_input(prefix, objs, base + self.num_registers_spec() + 1), 32);
        Seq::new(
            number,
            |i: int|
                self.field_spec().element_of(bytes_to_nat(blake2b512_digest(challenge + Seq::new(i as nat, |k: int| 0u8))) as int),
        )
    }

    /// The combination polynomial the prover hands to FRI: the randomizer,
    /// then each transition quotient and each boundary quotient, weighted
    /// and also shifted up to the maximal degree and weighted, with the
    /// weights drawn after the randomizer root.
    pub open spec fn combination_poly_spec(
        &self,
        objs: Seq<StarkProofItem>,
        base: int,
        prefix: Seq<u8>,
        trace: Seq<Vec<FieldElement>>,
        constraints: Seq<MPolynomial>,
        boundary: Seq<BoundaryConstraint>,
        extra: Seq<Vec<FieldElement>>,
        coefficients: Seq<FieldElement>,
    ) -> Seq<FieldElement> {
        let rows = row_views(trace) + row_views(extra);
        let tps = self.trace_poly_views(rows);
        let point = self.symbolic_point_spec(tps);
        let rr = self.num_registers_spec();
        let tqs = Seq::new(constraints.len(), |i: int| self.transition_quotient_spec(constraints[i], point));
        let bqs = Seq::new(rr, |k: int| self.boundary_quotient_spec(tps, boundary, k));
        let md = self.max_degree_spec(constraints);
        let ws = self.prover_weights(objs, base, prefix, (1 + 2 * constraints.len() + 2 * rr) as nat);
        let f = self.field_spec();
        combined_upto(
            combined_upto(
                weighted_sum(Seq::empty(), ws[0], strip_zeros(coefficients)),
                tqs,
                self.transition_bounds_spec(constraints),
                md,
                ws,
                1,
                f,
                constraints.len(),
            ),
            bqs,
            self.boundary_bounds_spec(rows.len(), boundary),
            md,
            ws,
            (1 + 2 * constraints.len()) as int,
            f,
            rr,
        )
    }

    /// From `base` on, the FRI proof object holds the encoding of a FRI
    /// transcript, made under the same Fiat-Shamir prefix, that commits to
    /// the codeword of `combination` and opens it at the top-level indices
    /// it samples (see [`fri_item_proves`]); and the positions opened after
    /// it in the STARK transcript are exactly those indices and the indices
    /// half the domain further, in ascending order.  The combination's
    /// coefficients are residues.
    pub open spec fn fri_proof_of(
        &self,
        objs: Seq<StarkProofItem>,
        base: int,
        prefix: Seq<u8>,
        combination: Seq<FieldElement>,
    ) -> bool {
        let fri = self.fri_spec();
        let rr = self.num_registers_spec();
        let d = fri.domain_length_spec();
        exists|indices: Seq<usize>, bcs: Seq<Seq<FieldElement>>, rc: Seq<FieldElement>, queried: Seq<usize>, dup: Seq<usize>|
            #![trigger layout_with(objs, base, rr, d, self.expansion_spec(), bcs, rc, queried, dup), fri_item_proves(fri, objs[base + rr + 1], prefix, fri_codeword(combination, fri), indices)]
            {
                &&& forall|i: int| 0 <= i < combination.len() ==> (#[trigger] combination[i]).value < fri.field_spec().p
                &&& fri_item_proves(fri, objs[base + rr + 1], prefix, fri_codeword(combination, fri), indices)
                &&& layout_with(objs, base, rr, d, self.expansion_spec(), bcs, rc, queried, dup)
                &&& ascending(queried)
                &&& queried.to_multiset() == (indices + offset_all(indices, (d / 2) as usize)).to_multiset()
            }
    }

    /// Gathers the facts of the FRI proof object into [`Self::fri_proof_of`].
    proof fn lemma_fri_proof_intro(
        &self,
        objs: Seq<StarkProofItem>,
        base: int,
        prefix: Seq<u8>,
        combination: Seq<FieldElement>,
        indices: Seq<usize>,
        bcs: Seq<Seq<FieldElement>>,
        rc: Seq<FieldElement>,
        queried: Seq<usize>,
        dup: Seq<usize>,
    )
        requires
            forall|i: int| 0 <= i < combination.len() ==> (#[trigger] combination[i]).value < self.fri_spec().field_spec().p,
            fri_item_proves(
                self.fri_spec(),
                objs[base + self.num_registers_spec() + 1],
                prefix,
                fri_codeword(combination, self.fri_spec()),
                indices,
            ),
            layout_with(
                objs,
                base,
                self.num_registers_spec(),
                self.fri_spec().domain_length_spec(),
                self.expansion_spec(),
                bcs,
                rc,
                queried,
                dup,
            ),
            ascending(queried),
            queried.to_multiset() == (indices + offset_all(
                indices,
                (self.fri_spec().domain_length_spec() / 2) as usize,
            )).to_multiset(),
        ensures
            self.fri_proof_of(objs, base, prefix, combination),
    {
    }

    /// Proves with FRI that `combined` is close to a low-degree codeword:
    /// runs the FRI prover on a fresh transcript with the same Fiat-Shamir
    /// prefix and appends its serialization as one FRI proof object.
    /// Returns the top-level indices FRI sampled.
    fn prove_combination(&self, fri: &Fri, combined: &Vec<FieldElement>, proof_stream: &mut StarkProofStream) -> (indices: Vec<usize>)
        requires
            combined@.len() == fri.domain_length_spec(),
            is_pow2(combined@.len() as int),
            codeword_in_field(combined@, fri.field_spec()),
        ensures
            final(proof_stream).objects_view().len() == old(proof_stream).objects_view().len() + 1,
            final(proof_stream).objects_view().take(old(proof_stream).objects_view().len() as int)
                == old(proof_stream).objects_view(),
            final(proof_stream).prefix_view() == old(proof_stream).prefix_view(),
            final(proof_stream).read_view() == old(proof_stream).read_view(),
            final(proof_stream).objects_view().last() is FriProof,
            fri_item_proves(*fri, final(proof_stream).objects_view().last(), old(proof_stream).prefix_view(), combined@, indices@),
            forall|i: int| 0 <= i < indices@.len() ==> (#[trigger] indices@[i]) < combined@.len() / 2,
    {
        let mut fri_stream: FriProofStream = FriProofStream::with_prefix(copy_bytes(proof_stream.prefix()));
        let indices = fri.prove(combined.as_slice(), &mut fri_stream);
        let fri_bytes = fri_stream.serialize();
        let ghost fobjs = fri_stream.objects_view();
        let ghost before = proof_stream.objects_view();
        proof_stream.push(StarkProofItem::FriProof(fri_bytes));
        proof {
            reveal(fri_item_proves);
            assert(proof_stream.objects_view().take(before.len() as int) =~= before);
            assert(fobjs.take(0) =~= Seq::<FriProofItem>::empty());
        }
        indices
    }

    /// The combination the prover computes, from the quotients, bounds and
    /// weights it drew after the randomizer root, is the combination
    /// polynomial of the transcript.
    proof fn lemma_combination_is_spec(
        &self,
        objs: Seq<StarkProofItem>,
        base: int,
        prefix: Seq<u8>,
        trace: Seq<Vec<FieldElement>>,
        constraints: Seq<MPolynomial>,
        boundary: Seq<BoundaryConstraint>,
        extra: Seq<Vec<FieldElement>>,
        coefficients: Seq<FieldElement>,
        upto_root: Seq<StarkProofItem>,
        challenge: Seq<u8>,
        weights: Seq<FieldElement>,
        tq: Seq<Seq<FieldElement>>,
        bq: Seq<Seq<FieldElement>>,
        tb: Seq<usize>,
        bb: Seq<usize>,
        md: int,
        randomizer: Seq<FieldElement>,
        combination: Seq<FieldElement>,
    )
        requires
            upto_root.len() == base + self.num_registers_spec() + 1,
            objs.take(base + self.num_registers_spec() + 1) == upto_root,
            challenge == shake256_output(challenge_input(prefix, upto_root, upto_root.len() as int), 32),
            weights.len() == 1 + 2 * constraints.len() + 2 * self.num_registers_spec(),
            forall|i: int|
                0 <= i < weights.len() ==> #[trigger] weights[i] == self.field_spec().element_of(
                    bytes_to_nat(blake2b512_digest(challenge + Seq::new(i as nat, |k: int| 0u8))) as int,
                ),
            tq == Seq::new(
                constraints.len(),
                |i: int|
                    self.transition_quotient_spec(
                        constraints[i],
                        self.symbolic_point_spec(self.trace_poly_views(row_views(trace) + row_views(extra))),
                    ),
            ),
            bq == Seq::new(
                self.num_registers_spec(),
                |k: int| self.boundary_quotient_spec(self.trace_poly_views(row_views(trace) + row_views(extra)), boundary, k),
            ),
            tb == self.transition_bounds_spec(constraints),
            bb == self.boundary_bounds_spec((row_views(trace) + row_views(extra)).len(), boundary),
            md == self.max_degree_spec(constraints),
            randomizer == strip_zeros(coefficients),
            combination == combined_upto(
                combined_upto(
                    weighted_sum(Seq::empty(), weights[0], randomizer),
                    tq,
                    tb,
                    md,
                    weights,
                    1,
                    self.field_spec(),
                    constraints.len(),
                ),
                bq,
                bb,
                md,
                weights,
                (1 + 2 * constraints.len()) as int,
                self.field_spec(),
                self.num_registers_spec(),
            ),
        ensures
            combination == self.combination_poly_spec(objs, base, prefix, trace, constraints, boundary, extra, coefficients),
    {
        assert(upto_root.take(upto_root.len() as int) =~= upto_root);
        let ws = self.prover_weights(objs, base, prefix, weights.len());
        assert(ws =~= weights);
    }

    /// Proving fails with the appended rows `extra` and the randomizer
    /// coefficients `coefficients`, of the sizes and in the field that the
    /// prover draws them: the trace does not meet its constraints, or the
    /// drawn values make a quotient's degree miss its bound.
    pub open spec fn proving_fails_with(
        &self,
        trace: Seq<Vec<FieldElement>>,
        constraints: Seq<MPolynomial>,
        boundary: Seq<BoundaryConstraint>,
        extra: Seq<Vec<FieldElement>>,
        coefficients: Seq<FieldElement>,
    ) -> bool {
        &&& extra.len() == self.num_randomizers_spec()
        &&& rows_over(extra, self.num_registers_spec(), self.field_spec())
        &&& coefficients.len() == self.max_degree_spec(constraints) + 1
        &&& forall|i: int|
            0 <= i < coefficients.len() ==> (#[trigger] coefficients[i]).wf() && coefficients[i].field == self.field_spec()
        &&& !self.prove_succeeds(trace, constraints, boundary, extra, coefficients)
    }

    /// From `base` on, the transcript proves the trace: appended rows and
    /// randomizer coefficients of the sizes the prover draws make proving
    /// succeed, the transcript commits to the codewords they give, and its
    /// FRI proof, under the transcript's Fiat-Shamir prefix `prefix`, is one
    /// of the combination of those codewords, opened at the positions that
    /// follow it.
    pub open spec fn proves_trace(
        &self,
        objs: Seq<StarkProofItem>,
        base: int,
        prefix: Seq<u8>,
        trace: Seq<Vec<FieldElement>>,
        constraints: Seq<MPolynomial>,
        boundary: Seq<BoundaryConstraint>,
        extra: Seq<Vec<FieldElement>>,
        coefficients: Seq<FieldElement>,
    ) -> bool {
        &&& extra.len() == self.num_randomizers_spec()
        &&& coefficients.len() == self.max_degree_spec(constraints) + 1
        &&& self.prove_succeeds(trace, constraints, boundary, extra, coefficients)
        &&& self.proof_commits(objs, base, trace, boundary, extra, coefficients)
        &&& self.fri_proof_of(
            objs,
            base,
            prefix,
            self.combination_poly_spec(objs, base, prefix, trace, constraints, boundary, extra, coefficients),
        )
    }

    /// When proving succeeds on a trace, constraints, boundary constraints,
    /// appended rows and randomizer coefficients: the randomized trace is
    /// not empty and its domain points are distinct; the boundary points
    /// of each register are distinct; the boundary and the transition
    /// zerofiers divide exactly; each transition quotient's degree is its
    /// bound; and the randomizer and the quotients fit the combination.
    pub open spec fn prove_succeeds(
        &self,
        trace: Seq<Vec<FieldElement>>,
        constraints: Seq<MPolynomial>,
        boundary: Seq<BoundaryConstraint>,
        extra: Seq<Vec<FieldElement>>,
        coefficients: Seq<FieldElement>,
    ) -> bool {
        let rows = row_views(trace) + row_views(extra);
        let tps = self.trace_poly_views(rows);
        let point = self.symbolic_point_spec(tps);
        let tqs = Seq::new(constraints.len(), |i: int| self.transition_quotient_spec(constraints[i], point));
        let bqs = Seq::new(self.num_registers_spec(), |k: int| self.boundary_quotient_spec(tps, boundary, k));
        let tb = self.transition_bounds_spec(constraints);
        let md = self.max_degree_spec(constraints);
        &&& rows.len() > 0
        &&& distinct_points(powers(self.omicron_spec(), rows.len()))
        &&& self.boundary_points_distinct_spec(boundary)
        &&& self.boundary_divides(tps, boundary)
        &&& forall|i: int| 0 <= i < constraints.len() ==> self.transition_divides(#[trigger] constraints[i], point)
        &&& forall|i: int| 0 <= i < constraints.len() ==> degree_of(#[trigger] tqs[i]) == tb[i]
        &&& strip_zeros(coefficients).len() <= usize::MAX - 1
        &&& quotients_fit(tqs, tb, md, self.field_spec())
        &&& quotients_fit(bqs, self.boundary_bounds_spec(rows.len(), boundary), md, self.field_spec())
    }

    /// Produces a STARK proof into a transcript with the randomness given:
    /// the rows appended to the trace and the coefficients of the
    /// randomizer polynomial.  `None` when the trace does not meet its
    /// constraints (a division leaves a remainder, or a transition
    /// quotient's degree differs from its bound), when two trace domain or
    /// boundary points coincide, or when a size would not fit a `usize`.
    #[verifier::rlimit(100)]
    pub fn prove_with_randomness(
        &self,
        trace: &[Vec<FieldElement>],
        transition_constraints: &[MPolynomial],
        boundary: &[BoundaryConstraint],
        randomizer_rows: &Vec<Vec<FieldElement>>,
        randomizer_coefficients: Vec<FieldElement>,
        proof_stream: &mut StarkProofStream,
    ) -> (r: Option<Vec<u8>>)
        requires
            self.prover_inputs_ok(trace@, transition_constraints@, boundary@, randomizer_rows@.len()),
            rows_over(randomizer_rows@, self.num_registers_spec(), self.field_spec()),
            forall|i: int| 0 <= i < randomizer_coefficients@.len() ==> (#[trigger] randomizer_coefficients@[i]).wf()
                && randomizer_coefficients@[i].field == self.field_spec(),
        ensures
            final(proof_stream).prefix_view() == old(proof_stream).prefix_view(),
            final(proof_stream).read_view() == old(proof_stream).read_view(),
            final(proof_stream).objects_view().take(old(proof_stream).objects_view().len() as int)
                == old(proof_stream).objects_view(),
            r matches Some(bytes) ==> bytes@ == list_encoding(final(proof_stream).objects_view()),
            r is Some <==> self.prove_succeeds(
                trace@,
                transition_constraints@,
                boundary@,
                randomizer_rows@,
                randomizer_coefficients@,
            ),
            r is Some ==> self.proof_commits(
                final(proof_stream).objects_view(),
                old(proof_stream).objects_view().len() as int,
                trace@,
                boundary@,
                randomizer_rows@,
                randomizer_coefficients@,
            ),
            r is Some ==> proof_layout(
                final(proof_stream).objects_view(),
                old(proof_stream).objects_view().len() as int,
                self.num_registers_spec(),
                self.fri_spec().domain_length_spec(),
                self.expansion_spec(),
            ),
            r is Some ==> self.fri_proof_of(
                final(proof_stream).objects_view(),
                old(proof_stream).objects_view().len() as int,
                old(proof_stream).prefix_view(),
                self.combination_poly_spec(
                    final(proof_stream).objects_view(),
                    old(proof_stream).objects_view().len() as int,
                    old(proof_stream).prefix_view(),
                    trace@,
                    transition_constraints@,
                    boundary@,
                    randomizer_rows@,
                    randomizer_coefficients@,
                ),
            ),
    {
        proof {
            use_type_invariant(self);
            self.lemma_inv();
        }
        let ghost start = proof_stream.objects_view();
        let ghost prefix0 = proof_stream.prefix_view();
        let f = self.field();
        let width = self.register_count();
        let mut rows: Vec<Vec<FieldElement>> = Vec::new();
        let mut i: usize = 0;
        while i < trace.len()
            invariant
                i <= trace@.len(),
                rows@.len() == i,
                forall|k: int| 0 <= k < i ==> (#[trigger] rows@[k])@ == trace@[k]@,
            decreases trace@.len() - i,
        {
            rows.push(copy_row(&trace[i]));
            i = i + 1;
        }
        let mut i: usize = 0;
        while i < randomizer_rows.len()
            invariant
                i <= randomizer_rows@.len(),
                rows@.len() == trace@.len() + i,
                forall|k: int| 0 <= k < trace@.len() ==> (#[trigger] rows@[k])@ == trace@[k]@,
                forall|k: int| 0 <= k < i ==> (#[trigger] rows@[trace@.len() + k])@ == randomizer_rows@[k]@,
            decreases randomizer_rows@.len() - i,
        {
            rows.push(copy_row(&randomizer_rows[i]));
            i = i + 1;
        }
        let ghost rv = row_views(trace@) + row_views(randomizer_rows@);
        let ghost succeeds = self.prove_succeeds(
            trace@,
            transition_constraints@,
            boundary@,
            randomizer_rows@,
            randomizer_coefficients@,
        );
        proof {
            lemma_rows_concat(trace@, randomizer_rows@, rows@, self.num_registers_spec(), self.field_spec());
            assert(row_views(rows@) =~= rv) by {
                assert forall|j: int| 0 <= j < rows@.len() implies row_views(rows@)[j] == #[trigger] rv[j] by {
                    if j < trace@.len() {
                        assert(rows@[j]@ == trace@[j]@);
                    } else {
                        assert(rows@[trace@.len() + (j - trace@.len())]@ == randomizer_rows@[j - trace@.len()]@);
                    }
                }
            }
        }
        let ghost tps = self.trace_poly_views(rv);
        let trace_polys = match self.trace_polynomials(&rows) {
            Some(ps) => ps,
            None => {
                return None;
            },
        };
        proof {
            assert forall|j: int| 0 <= j < self.num_registers_spec() implies #[trigger] tps[j] == trace_polys@[j]@ by {
                assert(poly_views(trace_polys@)[j] == trace_polys@[j]@);
            }
        }
        let boundary_quotients = match self.boundary_quotients(&trace_polys, boundary) {
            Some(qs) => qs,
            None => {
                proof {
                    if self.boundary_points_distinct_spec(boundary@) {
                        let k = choose|k: int|
                            0 <= k < self.num_registers_spec() && remainder_of(
                                poly_sub((#[trigger] trace_polys@[k])@, boundary_interpolant(boundary@, k as nat, self.omicron_spec())),
                                boundary_zerofier(boundary@, k as nat, self.omicron_spec()),
                            ).len() != 0;
                        assert(tps[k] == trace_polys@[k]@);
                        assert(!self.boundary_divides(tps, boundary@));
                    }
                    assert(!succeeds);
                }
                return None;
            },
        };
        let ghost bqs = Seq::new(self.num_registers_spec(), |k: int| self.boundary_quotient_spec(tps, boundary@, k));
        proof {
            assert forall|k: int| 0 <= k < self.num_registers_spec() implies #[trigger] tps[k] == trace_polys@[k]@ && remainder_of(
                poly_sub(tps[k], boundary_interpolant(boundary@, k as nat, self.omicron_spec())),
                boundary_zerofier(boundary@, k as nat, self.omicron_spec()),
            ).len() == 0 by {
                assert(tps[k] == trace_polys@[k]@);
            }
            assert(self.boundary_divides(tps, boundary@));
            assert(poly_views(boundary_quotients@) =~= bqs) by {
                assert forall|k: int| 0 <= k < bqs.len() implies poly_views(boundary_quotients@)[k] == #[trigger] bqs[k] by {
                    assert(tps[k] == trace_polys@[k]@);
                    assert(boundary_quotients@[k]@ == quotient_of(
                        poly_sub(trace_polys@[k]@, boundary_interpolant(boundary@, k as nat, self.omicron_spec())),
                        boundary_zerofier(boundary@, k as nat, self.omicron_spec()),
                    ));
                }
            }
        }
        let fri = self.fri();
        let fri_domain = fri.eval_domain();
        let ghost d = fri.domain_length_spec();
        proof {
            assert forall|k: int| 0 <= k < fri_domain@.len() implies (#[trigger] fri_domain@[k]).wf()
                && fri_domain@[k].field == f by {
                vstd::arithmetic::div_mod::lemma_mod_bound(
                    fri.offset_spec().value * pow(fri.omega_spec().value as int, k as nat),
                    MAIN_PRIME as int,
                );
            }
            assert(fri_domain@.len() >= 4) by {
                assert(self.omicron_domain_spec().len() * self.expansion_spec() >= 4) by (nonlinear_arith)
                    requires
                        self.omicron_domain_spec().len() >= 1,
                        self.expansion_spec() >= 4,
                ;
            }
        }
        let mut boundary_codewords: Vec<Vec<FieldElement>> = Vec::new();
        let mut k: usize = 0;
        while k < width
            invariant
                width == self.num_registers_spec(),
                f == self.field_spec(),
                f.p == MAIN_PRIME,
                boundary_quotients@.len() == width,
                forall|j: int| 0 <= j < width ==> poly_over(#[trigger] boundary_quotients@[j], f),
                fri_domain@.len() == d,
                is_pow2(d as int),
                forall|j: int| 0 <= j < fri_domain@.len() ==> (#[trigger] fri_domain@[j]).wf() && fri_domain@[j].field == f,
                k <= width,
                boundary_codewords@.len() == k,
                forall|j: int| 0 <= j < k ==> (#[trigger] boundary_codewords@[j])@.len() == d,
                forall|j: int| 0 <= j < k ==> (#[trigger] boundary_codewords@[j])@ == fri_codeword(boundary_quotients@[j]@, *fri),
                fri.field_spec() == f,
                fri.domain_length_spec() == d,
                forall|j: int|
                    0 <= j < d ==> #[trigger] fri_domain@[j] == fri.field_spec().element_of(
                        fri.offset_spec().value * pow(fri.omega_spec().value as int, j as nat),
                    ),
                proof_stream.objects_view().len() == start.len() + k,
                proof_stream.objects_view().take(start.len() as int) == start,
                proof_stream.prefix_view() == old(proof_stream).prefix_view(),
                proof_stream.read_view() == old(proof_stream).read_view(),
                start == old(proof_stream).objects_view(),
                forall|j: int|
                    0 <= j < k ==> is_boundary_root_of(#[trigger] proof_stream.objects_view()[start.len() + j], boundary_codewords@[j]@),
            decreases width - k,
        {
            let codeword = boundary_quotients[k].evaluate_domain(fri_domain.as_slice());
            proof {
                assert forall|j: int| 0 <= j < d implies #[trigger] codeword@[j] == fri_codeword(
                    boundary_quotients@[k as int]@,
                    *fri,
                )[j] by {
                    assert(fri_domain@[j].field == fri.field_spec());
                }
                assert(codeword@ =~= fri_codeword(boundary_quotients@[k as int]@, *fri));
            }
            let root = merkle_commit_codeword(codeword.as_slice());
            let ghost before = proof_stream.objects_view();
            proof_stream.push(StarkProofItem::BoundaryQuotientRoot(root));
            boundary_codewords.push(codeword);
            proof {
                let now = proof_stream.objects_view();
                assert(now.take(start.len() as int) =~= start) by {
                    assert(before.take(start.len() as int) == start);
                }
                assert forall|j: int| 0 <= j < k + 1 implies is_boundary_root_of(#[trigger] now[start.len() + j], boundary_codewords@[j]@) by {
                    if j < k {
                        assert(now[start.len() + j] == before[start.len() + j]);
                    }
                }
            }
            k = k + 1;
        }
        let ghost roots_objs = proof_stream.objects_view();
        let point = self.symbolic_point(&trace_polys);
        let ghost pv = self.symbolic_point_spec(tps);
        proof {
            assert(poly_views(trace_polys@) =~= tps);
            assert(poly_views(point@) == pv);
        }
        let transition_quotients = match self.transition_quotients(&point, transition_constraints) {
            Some(qs) => qs,
            None => {
                proof {
                    assert(!succeeds);
                }
                return None;
            },
        };
        let ghost tqs = Seq::new(
            transition_constraints@.len(),
            |i: int| self.transition_quotient_spec(transition_constraints@[i], pv),
        );
        proof {
            assert(poly_views(transition_quotients@) =~= tqs) by {
                assert forall|i: int| 0 <= i < tqs.len() implies poly_views(transition_quotients@)[i] == #[trigger] tqs[i] by {
                    assert(transition_quotients@[i]@ == quotient_of(
                        symbolic_sum(transition_constraints@[i]@, poly_views(point@), transition_constraints@[i]@.len()),
                        self.transition_zerofier_spec(),
                    ));
                }
            }
        }
        let ghost coefficient_view = randomizer_coefficients@;
        let randomizer = Polynomial::new(randomizer_coefficients);
        proof {
            crate::polynomial::lemma_strip_zeros(coefficient_view);
            if randomizer@.len() > 0 {
                assert(randomizer@[0] == coefficient_view[0]);
            }
        }
        let randomizer_codeword = randomizer.evaluate_domain(fri_domain.as_slice());
        proof {
            assert(randomizer_codeword@ =~= fri_codeword(strip_zeros(coefficient_view), *fri));
        }
        let randomizer_root = merkle_commit_codeword(randomizer_codeword.as_slice());
        proof_stream.push(StarkProofItem::RandomizerRoot(randomizer_root));
        let ghost rand_objs = proof_stream.objects_view();
        let number = 1 + 2 * transition_quotients.len() + 2 * boundary_quotients.len();
        let challenge = proof_stream.prover_fiat_shamir(32);
        let weights = self.sample_weights(number, challenge.as_slice());
        let transition_bounds = self.transition_quotient_degree_bounds(transition_constraints);
        proof {
            assert(transition_bounds@ =~= self.transition_bounds_spec(transition_constraints@));
        }
        if !degrees_match(&transition_quotients, &transition_bounds) {
            proof {
                let i = choose|i: int|
                    0 <= i < transition_quotients@.len() && (if (#[trigger] transition_quotients@[i])@.len() == 0 {
                        0
                    } else {
                        transition_quotients@[i]@.len() - 1
                    }) != transition_bounds@[i];
                assert(poly_views(transition_quotients@)[i] == transition_quotients@[i]@);
                assert(degree_of(tqs[i]) != self.transition_bounds_spec(transition_constraints@)[i]);
                assert(!succeeds);
            }
            return None;
        }
        proof {
            assert forall|i: int| 0 <= i < transition_constraints@.len() implies degree_of(#[trigger] tqs[i])
                == self.transition_bounds_spec(transition_constraints@)[i] by {
                assert(poly_views(transition_quotients@)[i] == transition_quotients@[i]@);
                assert(transition_bounds@[i] == self.transition_bounds_spec(transition_constraints@)[i]);
            }
        }
        let boundary_bounds = self.boundary_quotient_degree_bounds(rows.len(), boundary);
        proof {
            assert(boundary_bounds@ =~= self.boundary_bounds_spec(rv.len(), boundary@));
        }
        let max_degree = self.max_degree(transition_constraints);
        proof {
            assert forall|j: int| 0 <= j < weights@.len() implies (#[trigger] weights@[j]).wf() && weights@[j].field == f by {
            }
        }
        let combination = match self.combination(
            randomizer,
            &transition_quotients,
            &transition_bounds,
            &boundary_quotients,
            &boundary_bounds,
            max_degree,
            &weights,
        ) {
            Some(c) => c,
            None => {
                proof {
                    assert(!succeeds);
                }
                return None;
            },
        };
        proof {
            assert(succeeds);
        }
        let combined = combination.evaluate_domain(fri_domain.as_slice());
        proof {
            assert forall|j: int| 0 <= j < combined@.len() implies (#[trigger] combined@[j]).field == fri.field_spec()
                && combined@[j].wf() by {
                vstd::arithmetic::div_mod::lemma_mod_bound(
                    poly_eval(combination@, fri_domain@[j].value as int),
                    MAIN_PRIME as int,
                );
            }
            assert(codeword_in_field(combined@, fri.field_spec()));
        }
        let ghost before_fri = proof_stream.objects_view();
        let indices = self.prove_combination(fri, &combined, proof_stream);
        let ghost after_fri = proof_stream.objects_view();
        proof {
            reveal(is_pow2);
            let e = self.expansion_spec() as int;
            assert(e % 2 == 0);
            vstd::arithmetic::div_mod::lemma_mul_mod_noop_right(self.omicron_domain_spec().len() as int, e, 2);
            assert(0int % 2 == 0);
            vstd::arithmetic::mul::lemma_mul_basics(self.omicron_domain_spec().len() as int);
        }
        let (queried, dup) = query_positions(&indices, fri.domain_length(), self.expansion());
        let ghost open_start = start.len() + width + 2;
        let mut k: usize = 0;
        while k < width
            invariant
                width == self.num_registers_spec(),
                boundary_codewords@.len() == width,
                forall|j: int| 0 <= j < width ==> (#[trigger] boundary_codewords@[j])@.len() == d,
                is_pow2(d as int),
                d >= 4,
                forall|j: int| 0 <= j < dup@.len() ==> #[trigger] dup@[j] < d,
                k <= width,
                open_start == start.len() + width + 2,
                proof_stream.objects_view().len() == open_start + 2 * (k * dup@.len()),
                after_fri.len() == open_start,
                proof_stream.objects_view().take(open_start) == after_fri,
                proof_stream.prefix_view() == old(proof_stream).prefix_view(),
                proof_stream.read_view() == old(proof_stream).read_view(),
                forall|r: int, j: int|
                    0 <= r < k && 0 <= j < dup@.len() ==> opens_at(
                        proof_stream.objects_view(),
                        open_start + 2 * (r * dup@.len()) + 2 * j,
                        #[trigger] boundary_codewords@[r]@,
                        #[trigger] dup@[j] as int,
                    ),
            decreases width - k,
        {
            let ghost before = proof_stream.objects_view();
            push_openings(&boundary_codewords[k], &dup, proof_stream);
            proof {
                let now = proof_stream.objects_view();
                let nd = dup@.len() as int;
                assert((k + 1) * nd == k * nd + nd) by (nonlinear_arith);
                assert(now.take(open_start) =~= before.take(open_start)) by {
                    assert(now.take(before.len() as int) == before);
                }
                assert forall|r: int, j: int|
                    0 <= r < k + 1 && 0 <= j < nd implies opens_at(
                        now,
                        open_start + 2 * (r * nd) + 2 * j,
                        #[trigger] boundary_codewords@[r]@,
                        #[trigger] dup@[j] as int,
                    ) by {
                    if r < k {
                        assert(r * nd + j < k * nd) by (nonlinear_arith)
                            requires
                                r < k,
                                0 <= j < nd,
                        ;
                        let at = open_start + 2 * (r * nd) + 2 * j;
                        assert(now[at] == before[at]);
                        assert(now[at + 1] == before[at + 1]);
                    }
                }
            }
            k = k + 1;
        }
        let ghost opened_objs = proof_stream.objects_view();
        push_openings(&randomizer_codeword, &queried, proof_stream);
        proof {
            let fin = proof_stream.objects_view();
            let nd = dup@.len() as int;
            let nq = queried@.len() as int;
            let rr = width as int;
            assert(rand_objs == roots_objs.push(StarkProofItem::RandomizerRoot(randomizer_root)));
            assert(after_fri.take(rand_objs.len() as int) =~= rand_objs);
            assert(fin.take(opened_objs.len() as int) == opened_objs);
            assert(opened_objs.take(open_start) == after_fri);
            assert(fin.take(start.len() as int) =~= start) by {
                assert(roots_objs.take(start.len() as int) == start);
                assert forall|j: int| 0 <= j < start.len() implies fin[j] == start[j] by {
                    assert(fin[j] == opened_objs[j]);
                    assert(opened_objs[j] == after_fri[j]);
                    assert(after_fri[j] == rand_objs[j]);
                    assert(rand_objs[j] == roots_objs[j]);
                    assert(roots_objs[j] == roots_objs.take(start.len() as int)[j]);
                }
            }
            let bcs = Seq::new(width as nat, |r: int| boundary_codewords@[r]@);
            let rc = randomizer_codeword@;
            assert(rr * nd <= rr * nd + 0);
            assert forall|r: int| 0 <= r < rr implies is_boundary_root_of(#[trigger] fin[start.len() + r], bcs[r]) by {
                assert(fin[start.len() + r] == opened_objs[start.len() + r]);
                assert(opened_objs[start.len() + r] == after_fri[start.len() + r]);
                assert(after_fri[start.len() + r] == rand_objs[start.len() + r]);
                assert(rand_objs[start.len() + r] == roots_objs[start.len() + r]);
            }
            assert(fin[start.len() + rr] == rand_objs[start.len() + rr]) by {
                assert(fin[start.len() + rr] == opened_objs[start.len() + rr]);
                assert(opened_objs[start.len() + rr] == after_fri[start.len() + rr]);
            }
            assert(fin[start.len() + rr + 1] == after_fri[start.len() + rr + 1]) by {
                assert(fin[start.len() + rr + 1] == opened_objs[start.len() + rr + 1]);
            }
            assert forall|r: int, j: int|
                0 <= r < rr && 0 <= j < nd implies opens_at(
                    fin,
                    open_start + 2 * (r * nd) + 2 * j,
                    #[trigger] bcs[r],
                    #[trigger] dup@[j] as int,
                ) by {
                assert(r * nd + j < rr * nd) by (nonlinear_arith)
                    requires
                        r < rr,
                        0 <= j < nd,
                ;
                let at = open_start + 2 * (r * nd) + 2 * j;
                assert(opens_at(opened_objs, at, boundary_codewords@[r]@, dup@[j] as int));
                assert(fin[at] == opened_objs[at]);
                assert(fin[at + 1] == opened_objs[at + 1]);
            }
            let nq = queried@.len() as int;
            assert forall|j: int| 0 <= j < dup@.len() implies dup@[j] as int
                == #[trigger] dup_positions(queried@, self.expansion_spec(), d)[j] by {
                if j >= nq {
                    assert(dup@[nq + (j - nq)] == (queried@[j - nq] + self.expansion_spec()) % (d as int));
                }
            }
            assert(dup@.map_values(|u: usize| u as int) =~= dup_positions(queried@, self.expansion_spec(), d));
            assert(layout_with(fin, start.len() as int, width as nat, d, self.expansion_spec(), bcs, rc, queried@, dup@));
            assert forall|r: int| 0 <= r < rr implies is_boundary_root_of(
                #[trigger] fin[start.len() + r],
                fri_codeword(self.boundary_quotient_spec(tps, boundary@, r), self.fri_spec()),
            ) by {
                assert(bqs[r] == poly_views(boundary_quotients@)[r]);
                assert(bcs[r] == fri_codeword(boundary_quotients@[r]@, *fri));
            }
            assert(self.proof_commits(fin, start.len() as int, trace@, boundary@, randomizer_rows@, randomizer_coefficients@));
            // the FRI proof: its transcript, the combination it commits to, the positions
            let base = start.len() as int;
            assert(fin.take(base + rr + 1) =~= rand_objs) by {
                assert forall|j: int| 0 <= j < base + rr + 1 implies fin[j] == rand_objs[j] by {
                    assert(fin[j] == opened_objs[j]);
                    assert(opened_objs[j] == after_fri[j]);
                }
            }
            self.lemma_combination_is_spec(
                fin,
                base,
                prefix0,
                trace@,
                transition_constraints@,
                boundary@,
                randomizer_rows@,
                randomizer_coefficients@,
                rand_objs,
                challenge@,
                weights@,
                poly_views(transition_quotients@),
                poly_views(boundary_quotients@),
                transition_bounds@,
                boundary_bounds@,
                max_degree as int,
                randomizer@,
                combination@,
            );
            assert(combined@ =~= fri_codeword(combination@, *fri));
            assert(fin[base + rr + 1] == after_fri.last());
            assert forall|i: int| 0 <= i < combination@.len() implies (#[trigger] combination@[i]).value < fri.field_spec().p by {
                assert(combination@[i].field == combination@[0].field && combination@[i].wf());
            }
            self.lemma_fri_proof_intro(fin, base, prefix0, combination@, indices@, bcs, rc, queried@, dup@);
        }
        Some(proof_stream.serialize())
    }
}


/// Draws field elements from operating-system randomness: each one is 17
/// random bytes read as a number and reduced into the field.  Should the
/// random source fail, the element is drawn from 17 zero bytes instead
/// (zero), so that proving goes on rather than stopping.
fn random_elements(f: Field, count: usize) -> (v: Vec<FieldElement>)
    requires
        f.p > 0,
    ensures
        v@.len() == count,
        forall|i: int| 0 <= i < count ==> (#[trigger] v@[i]).wf() && v@[i].field == f,
{
    let mut out: Vec<FieldElement> = Vec::new();
    let mut i: usize = 0;
    while i < count
        invariant
            f.p > 0,
            i <= count,
            out@.len() == i,
            forall|k: int| 0 <= k < i ==> (#[trigger] out@[k]).wf() && out@[k].field == f,
        decreases count - i,
    {
        let bytes = match os_random_bytes(17) {
            Some(b) => b,
            None => vec![0u8; 17],
        };
        out.push(f.sample(bytes.as_slice()));
        i = i + 1;
    }
    out
}

impl Stark {
    /// Produces a STARK proof into a caller-provided transcript: appends
    /// random rows to the trace and draws a random randomizer polynomial of
    /// the maximal degree, then proves as [`Stark::prove_with_randomness`]
    /// does.  `None` only when proving fails with the randomness drawn: a
    /// failing source is replaced by zero bytes.
    pub fn prove_with_stream(
        &self,
        trace: &[Vec<FieldElement>],
        transition_constraints: &[MPolynomial],
        boundary: &[BoundaryConstraint],
        proof_stream: &mut StarkProofStream,
    ) -> (r: Option<Vec<u8>>)
        requires
            self.prover_inputs_ok(trace@, transition_constraints@, boundary@, self.num_randomizers_spec()),
        ensures
            final(proof_stream).prefix_view() == old(proof_stream).prefix_view(),
            final(proof_stream).read_view() == old(proof_stream).read_view(),
            final(proof_stream).objects_view().take(old(proof_stream).objects_view().len() as int)
                == old(proof_stream).objects_view(),
            r matches Some(bytes) ==> bytes@ == list_encoding(final(proof_stream).objects_view()),
            r is None ==> exists|extra: Seq<Vec<FieldElement>>, coefficients: Seq<FieldElement>|
                #[trigger] self.proving_fails_with(trace@, transition_constraints@, boundary@, extra, coefficients),
            r is Some ==> exists|extra: Seq<Vec<FieldElement>>, coefficients: Seq<FieldElement>|
                #[trigger] self.proves_trace(
                    final(proof_stream).objects_view(),
                    old(proof_stream).objects_view().len() as int,
                    old(proof_stream).prefix_view(),
                    trace@,
                    transition_constraints@,
                    boundary@,
                    extra,
                    coefficients,
                ),
            r is Some ==> proof_layout(
                final(proof_stream).objects_view(),
                old(proof_stream).objects_view().len() as int,
                self.num_registers_spec(),
                self.fri_spec().domain_length_spec(),
                self.expansion_spec(),
            ),
    {
        proof {
            use_type_invariant(self);
            self.lemma_inv();
        }
        let f = self.field();
        let width = self.register_count();
        let count = self.num_randomizers();
        let mut rows: Vec<Vec<FieldElement>> = Vec::new();
        let mut i: usize = 0;
        while i < count
            invariant
                f == self.field_spec(),
                f.p > 0,
                width == self.num_registers_spec(),
                i <= count,
                rows@.len() == i,
                rows_over(rows@, width as nat, f),
            decreases count - i,
        {
            let row = random_elements(f, width);
            let ghost before = rows@;
            rows.push(row);
            proof {
                assert forall|k: int| 0 <= k < rows@.len() implies (#[trigger] rows@[k]@).len() >= width by {
                    if k < i {
                        assert(rows@[k] == before[k]);
                    }
                }
                assert forall|k: int, reg: int| 0 <= k < rows@.len() && 0 <= reg < width implies
                    (#[trigger] rows@[k]@[reg]).wf() && rows@[k]@[reg].field == f by {
                    if k < i {
                        assert(rows@[k] == before[k]);
                        lemma_row_entry(before, width as nat, f, k, reg);
                    }
                }
            }
            i = i + 1;
        }
        let max_degree = self.max_degree(transition_constraints);
        proof {
            lemma_pow2_pos(bits_of(max_quotient_degree(transition_constraints@, self.point_degrees(), self.trace_length_spec()) as nat));
        }
        let coefficients = random_elements(f, max_degree + 1);
        let ghost drawn = coefficients@;
        let ghost base = proof_stream.objects_view().len() as int;
        let ghost prefix0 = proof_stream.prefix_view();
        let r = self.prove_with_randomness(trace, transition_constraints, boundary, &rows, coefficients, proof_stream);
        proof {
            if r is Some {
                assert(self.proves_trace(proof_stream.objects_view(), base, prefix0, trace@, transition_constraints@, boundary@, rows@, drawn));
            } else {
                assert(self.proving_fails_with(trace@, transition_constraints@, boundary@, rows@, drawn));
            }
        }
        r
    }

    /// Produces a STARK proof: the serialized transcript of
    /// [`Stark::prove_with_stream`] on an empty transcript.
    pub fn prove(
        &self,
        trace: &[Vec<FieldElement>],
        transition_constraints: &[MPolynomial],
        boundary: &[BoundaryConstraint],
    ) -> (r: Option<Vec<u8>>)
        requires
            self.prover_inputs_ok(trace@, transition_constraints@, boundary@, self.num_randomizers_spec()),
        ensures
            r is None ==> exists|extra: Seq<Vec<FieldElement>>, coefficients: Seq<FieldElement>|
                #[trigger] self.proving_fails_with(trace@, transition_constraints@, boundary@, extra, coefficients),
            r matches Some(bytes) ==> exists|objs: Seq<StarkProofItem>|
                bytes@ == list_encoding(objs) && proof_layout(objs, 0, self.num_registers_spec(), self.fri_spec().domain_length_spec(), self.expansion_spec()),
            r matches Some(bytes) ==> exists|objs: Seq<StarkProofItem>, extra: Seq<Vec<FieldElement>>, coefficients: Seq<FieldElement>|
                #![trigger list_encoding(objs), self.proves_trace(objs, 0, Seq::<u8>::empty(), trace@, transition_constraints@, boundary@, extra, coefficients)]
                bytes@ == list_encoding(objs) && self.proves_trace(objs, 0, Seq::<u8>::empty(), trace@, transition_constraints@, boundary@, extra, coefficients),
    {
        let mut proof_stream = StarkProofStream::new();
        let r = self.prove_with_stream(trace, transition_constraints, boundary, &mut proof_stream);
        proof {
            if r is Some {
                let objs = proof_stream.objects_view();
                assert(r->0@ == list_encoding(objs) && proof_layout(objs, 0, self.num_registers_spec(), self.fri_spec().domain_length_spec(), self.expansion_spec()));
                let (extra, coefficients) = choose|extra: Seq<Vec<FieldElement>>, coefficients: Seq<FieldElement>|
                    #[trigger] self.proves_trace(objs, 0, Seq::<u8>::empty(), trace@, transition_constraints@, boundary@, extra, coefficients);
                assert(r->0@ == list_encoding(objs) && self.proves_trace(objs, 0, Seq::<u8>::empty(), trace@, transition_constraints@, boundary@, extra, coefficients));
            }
        }
        r
    }
}


/// Whether a term's degree, variable `t` standing for a polynomial of
/// degree `pd[t]`, fits a `usize`.
fn term_degree_fits(e: &Vec<usize>, pd: &Vec<usize>) -> (b: bool)
    ensures
        b == (term_degree(e@, pd@) <= usize::MAX),
{
    let n = if e.len() <= pd.len() {
        e.len()
    } else {
        pd.len()
    };
    let mut sum: usize = 0;
    let mut k: usize = 0;
    while k < n
        invariant
            n == (if e@.len() <= pd@.len() { e@.len() } else { pd@.len() }),
            k <= n,
            sum == weighted_degree(e@, pd@, k as nat),
        decreases n - k,
    {
        let a = pd[k] as u128;
        let c = e[k] as u128;
        proof {
            assert(a * c <= 0xFFFF_FFFF_FFFF_FFFE_0000_0000_0000_0001u128) by (nonlinear_arith)
                requires
                    a <= 0xFFFF_FFFF_FFFF_FFFFu128,
                    c <= 0xFFFF_FFFF_FFFF_FFFFu128,
            ;
        }
        let product = a * c;
        if product > (usize::MAX - sum) as u128 {
            proof {
                lemma_weighted_degree_grows(e@, pd@, (k + 1) as nat, n as nat);
            }
            return false;
        }
        sum = sum + product as usize;
        k = k + 1;
    }
    true
}

impl Stark {
    /// Decides [`Stark::air_ok`]: the requirements that the prover and the
    /// verifier place on the constraints and the boundary.
    pub fn check_air(&self, constraints: &[MPolynomial], boundary: &[BoundaryConstraint]) -> (b: bool)
        ensures
            b == self.air_ok(constraints@, boundary@),
    {
        proof {
            use_type_invariant(self);
            self.lemma_inv();
        }
        let f = self.field();
        let width = self.register_count();
        if boundary.len() > usize::MAX - 3 {
            return false;
        }
        let mut i: usize = 0;
        while i < boundary.len()
            invariant
                i <= boundary@.len(),
                f == self.field_spec(),
                forall|k: int| 0 <= k < i ==> (#[trigger] boundary@[k]).2.wf() && boundary@[k].2.field == f,
            decreases boundary@.len() - i,
        {
            let v = boundary[i].2;
            if v.field != f || v.value >= f.p {
                return false;
            }
            i = i + 1;
        }
        let t = self.trace_length();
        if t < 1 || t - 1 > self.trace_domain_length() {
            return false;
        }
        let mut i: usize = 0;
        while i < constraints.len()
            invariant
                i <= constraints@.len(),
                f == self.field_spec(),
                forall|k: int| 0 <= k < i && (#[trigger] constraints@[k])@.len() > 0 ==> constraints@[k].field_spec() == f,
            decreases constraints@.len() - i,
        {
            let terms = constraints[i].dictionary();
            if terms.len() > 0 && terms[0].1.field != f {
                proof {
                    assert(constraints@[i as int]@[0].1 == terms@[0].1);
                }
                return false;
            }
            proof {
                if terms@.len() > 0 {
                    assert(constraints@[i as int]@[0].1 == terms@[0].1);
                }
            }
            i = i + 1;
        }
        if constraints.len() > (usize::MAX - 1) / 2 || width > (usize::MAX - 1 - 2 * constraints.len()) / 2 {
            return false;
        }
        let pd = self.point_degrees_exec();
        let mut i: usize = 0;
        while i < constraints.len()
            invariant
                i <= constraints@.len(),
                pd@ == self.point_degrees(),
                forall|a: int, j: int|
                    0 <= a < i && 0 <= j < constraints@[a]@.len() ==> term_degree(#[trigger] constraints@[a]@[j].0, pd@) <= usize::MAX,
            decreases constraints@.len() - i,
        {
            let terms = constraints[i].dictionary();
            let mut j: usize = 0;
            while j < terms.len()
                invariant
                    i < constraints@.len(),
                    pd@ == self.point_degrees(),
                    crate::polynomial::multivariate::term_views(terms@) == constraints@[i as int]@,
                    j <= terms@.len(),
                    forall|a: int, k: int|
                        0 <= a < i && 0 <= k < constraints@[a]@.len() ==> term_degree(#[trigger] constraints@[a]@[k].0, pd@) <= usize::MAX,
                    forall|k: int| 0 <= k < j ==> term_degree(#[trigger] constraints@[i as int]@[k].0, pd@) <= usize::MAX,
                decreases terms@.len() - j,
            {
                proof {
                    assert(constraints@[i as int]@[j as int].0 == terms@[j as int].0@);
                }
                if !term_degree_fits(&terms[j].0, &pd) {
                    proof {
                        assert(term_degree(constraints@[i as int]@[j as int].0, self.point_degrees()) > usize::MAX);
                        assert(!self.degrees_fit(constraints@));
                    }
                    return false;
                }
                j = j + 1;
            }
            i = i + 1;
        }
        proof {
            assert(self.degrees_fit(constraints@));
        }
        let degrees = self.transition_degree_bounds(constraints);
        let mut i: usize = 0;
        while i < degrees.len()
            invariant
                i <= degrees@.len(),
                t == self.trace_length_spec(),
                t >= 1,
                degrees@.len() == constraints@.len(),
                forall|k: int|
                    0 <= k < degrees@.len() ==> #[trigger] degrees@[k] == max_term_degree(constraints@[k]@, self.point_degrees()),
                forall|k: int|
                    0 <= k < i ==> max_term_degree(#[trigger] constraints@[k]@, self.point_degrees()) >= self.trace_length_spec() - 1,
            decreases degrees@.len() - i,
        {
            if degrees[i] < t - 1 {
                return false;
            }
            i = i + 1;
        }
        let bounds = self.transition_quotient_degree_bounds(constraints);
        let ghost pdv = self.point_degrees();
        let mut m: usize = 0;
        let mut i: usize = 0;
        proof {
            assert(constraints@.take(0) =~= Seq::<MPolynomial>::empty());
        }
        while i < bounds.len()
            invariant
                bounds@.len() == constraints@.len(),
                forall|k: int|
                    0 <= k < bounds@.len() ==> #[trigger] bounds@[k] == max_term_degree(constraints@[k]@, pdv) - (t - 1),
                i <= bounds@.len(),
                t == self.trace_length_spec(),
                m == max_quotient_degree(constraints@.take(i as int), pdv, t as nat),
            decreases bounds@.len() - i,
        {
            proof {
                let ti = constraints@.take(i + 1);
                assert(ti.drop_last() =~= constraints@.take(i as int));
                assert(ti.last() == constraints@[i as int]);
            }
            if bounds[i] > m {
                m = bounds[i];
            }
            i = i + 1;
        }
        proof {
            assert(constraints@.take(i as int) =~= constraints@);
        }
        let bits = bit_length(m);
        proof {
            vstd::arithmetic::power2::lemma2_to64();
            vstd::arithmetic::power2::lemma2_to64_rest();
            if bits < usize::BITS {
                vstd::arithmetic::power2::lemma_pow2_strictly_increases(bits as nat, usize::BITS as nat);
            } else {
                lemma_bits_of(m as nat);
            }
        }
        bits < usize::BITS
    }
}


/// Whether the first `n` powers of `g` are distinct.
pub fn powers_distinct(g: &FieldElement, n: usize) -> (b: bool)
    requires
        g.field.p > 0,
    ensures
        b == distinct_points(powers(*g, n as nat)),
{
    let mut domain: Vec<FieldElement> = Vec::new();
    let mut i: usize = 0;
    while i < n
        invariant
            g.field.p > 0,
            i <= n,
            domain@ == powers(*g, n as nat).take(i as int),
        decreases n - i,
    {
        domain.push(g.pow(i as u64));
        i = i + 1;
        proof {
            assert(domain@ =~= powers(*g, n as nat).take(i as int));
        }
    }
    proof {
        assert(domain@ =~= powers(*g, n as nat));
    }
    all_distinct(&domain)
}

} // verus!
