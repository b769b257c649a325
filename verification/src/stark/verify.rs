//! The STARK verifier: reads the commitments, checks the embedded FRI
//! proof, authenticates the openings of the boundary quotient and
//! randomizer codewords, and checks the nonlinear combination at every
//! queried position.

use vstd::prelude::*;
use vstd::arithmetic::power::*;
use vstd::arithmetic::power2::*;

use crate::bytes::copy_bytes;
use crate::crypto::encoding::{fits_at, list_encoding};
use crate::crypto::merkle::{byte_views, path_root};
use crate::crypto::digest::{blake2b512_digest, shake256_output};
use crate::crypto::proof_stream::challenge_input;
use crate::field::{bytes_to_nat, Field, FieldElement, MAIN_PRIME};
use crate::fri::item::{FriProofItem, FriProofStream};
use crate::fri::{check_path, copy_paths, last_layer_ok, leaf_hash, round_start, sample_ok, values_of_first_round, Fri};
use crate::stark::item::{StarkProofItem, StarkProofStream};
use crate::field::arith::spec_inverse;
use crate::polynomial::multivariate::{mp_eval, point_values, MPolynomial};
use crate::polynomial::{poly_eval, zerofier, Polynomial};
use crate::stark::openings::Openings;
use crate::stark::params::{
    boundary_points, boundary_zerofier, interpolates_boundary, max_term_degree, register_boundary, BoundaryConstraint, Stark,
};
use crate::stark::prover::{add_mod_usize, poly_over};
use crate::crypto::proof_stream::transcript_decodable;
use crate::fri::first_round_pairs;

verus! {

/// The bytes of an embedded FRI proof (empty for other objects).
pub open spec fn fri_bytes_of(item: StarkProofItem) -> Seq<u8> {
    match item {
        StarkProofItem::FriProof(x) => x@,
        _ => Seq::empty(),
    }
}

/// The pairs are sorted by position.
pub open spec fn sorted_by_position(srt: Seq<(usize, FieldElement)>) -> bool {
    forall|i: int, j: int| 0 <= i < j < srt.len() ==> srt[i].0 <= srt[j].0
}

/// The bytes carried by a root object (empty for other objects).
pub open spec fn root_bytes(item: StarkProofItem) -> Seq<u8> {
    match item {
        StarkProofItem::BoundaryQuotientRoot(r) => r@,
        StarkProofItem::RandomizerRoot(r) => r@,
        _ => Seq::empty(),
    }
}

/// The element carried by an element object (an arbitrary one for other
/// objects).
pub open spec fn element_in(item: StarkProofItem) -> FieldElement {
    match item {
        StarkProofItem::FieldElement(e) => e,
        _ => arbitrary(),
    }
}

/// The objects at `at` and `at + 1` are an element and an authentication
/// path that leads from the element's leaf at `index` to `root`.
pub open spec fn authenticates_at(items: Seq<StarkProofItem>, at: int, root: Seq<u8>, index: int) -> bool {
    &&& items[at] is FieldElement
    &&& items[at + 1] matches StarkProofItem::AuthenticationPath(path) && root == path_root(
        index as nat,
        byte_views(path@),
        leaf_hash(element_in(items[at])),
    )
}

/// `o` holds a value at each of the first `n` positions, one that an
/// element object of the transcript at `start + 2 * k` gives for some `k`
/// below `n` that names the same position (a later opening of a position
/// replaces an earlier one).
pub open spec fn opened_from(o: Map<usize, FieldElement>, objs: Seq<StarkProofItem>, start: int, positions: Seq<usize>, n: int) -> bool {
    forall|k: int|
        #![trigger positions[k]]
        0 <= k < n ==> o.contains_key(positions[k]) && exists|k2: int|
            #![trigger positions[k2]]
            0 <= k2 < n && positions[k2] == positions[k] && o[positions[k]] == element_in(objs[start + 2 * k2])
}

/// Reads the next object when it is a boundary quotient root.
fn read_boundary_root(proof_stream: &mut StarkProofStream) -> (r: Option<Vec<u8>>)
    requires
        old(proof_stream).wf(),
    ensures
        final(proof_stream).wf(),
        final(proof_stream).objects_view() == old(proof_stream).objects_view(),
        final(proof_stream).prefix_view() == old(proof_stream).prefix_view(),
        r is Some ==> final(proof_stream).read_view() == old(proof_stream).read_view() + 1,
        r is Some ==> old(proof_stream).read_view() < old(proof_stream).objects_view().len(),
        r matches Some(root) ==> old(proof_stream).objects_view()[old(proof_stream).read_view() as int] is BoundaryQuotientRoot
            && root@ == root_bytes(old(proof_stream).objects_view()[old(proof_stream).read_view() as int]),
        r is Some <==> old(proof_stream).read_view() < old(proof_stream).objects_view().len()
            && old(proof_stream).objects_view()[old(proof_stream).read_view() as int] is BoundaryQuotientRoot,
{
    if !proof_stream.has_unread() {
        return None;
    }
    let root = match proof_stream.peek() {
        StarkProofItem::BoundaryQuotientRoot(x) => copy_bytes(x.as_slice()),
        _ => {
            return None;
        },
    };
    proof_stream.advance();
    Some(root)
}

/// Reads the next object when it is the randomizer root.
fn read_randomizer_root(proof_stream: &mut StarkProofStream) -> (r: Option<Vec<u8>>)
    requires
        old(proof_stream).wf(),
    ensures
        final(proof_stream).wf(),
        final(proof_stream).objects_view() == old(proof_stream).objects_view(),
        final(proof_stream).prefix_view() == old(proof_stream).prefix_view(),
        r is Some ==> final(proof_stream).read_view() == old(proof_stream).read_view() + 1,
        r is Some ==> old(proof_stream).read_view() < old(proof_stream).objects_view().len(),
        r matches Some(root) ==> old(proof_stream).objects_view()[old(proof_stream).read_view() as int] is RandomizerRoot
            && root@ == root_bytes(old(proof_stream).objects_view()[old(proof_stream).read_view() as int]),
        r is Some <==> old(proof_stream).read_view() < old(proof_stream).objects_view().len()
            && old(proof_stream).objects_view()[old(proof_stream).read_view() as int] is RandomizerRoot,
{
    if !proof_stream.has_unread() {
        return None;
    }
    let root = match proof_stream.peek() {
        StarkProofItem::RandomizerRoot(x) => copy_bytes(x.as_slice()),
        _ => {
            return None;
        },
    };
    proof_stream.advance();
    Some(root)
}

/// Reads the next object when it is an embedded FRI proof.
fn read_fri_proof(proof_stream: &mut StarkProofStream) -> (r: Option<Vec<u8>>)
    requires
        old(proof_stream).wf(),
    ensures
        final(proof_stream).wf(),
        final(proof_stream).objects_view() == old(proof_stream).objects_view(),
        final(proof_stream).prefix_view() == old(proof_stream).prefix_view(),
        r is Some ==> final(proof_stream).read_view() == old(proof_stream).read_view() + 1,
        r is Some ==> old(proof_stream).read_view() < old(proof_stream).objects_view().len(),
        r matches Some(bytes) ==> old(proof_stream).objects_view()[old(proof_stream).read_view() as int] matches StarkProofItem::FriProof(x)
            && x@ == bytes@,
        r is Some <==> old(proof_stream).read_view() < old(proof_stream).objects_view().len()
            && old(proof_stream).objects_view()[old(proof_stream).read_view() as int] is FriProof,
{
    if !proof_stream.has_unread() {
        return None;
    }
    let bytes = match proof_stream.peek() {
        StarkProofItem::FriProof(x) => copy_bytes(x.as_slice()),
        _ => {
            return None;
        },
    };
    proof_stream.advance();
    Some(bytes)
}

/// The objects at `at` and `at + 1` are an element and an authentication
/// path of a length the verifier accepts (between 1 and 63 levels, fewer
/// than the bits of a `usize`, with `index` below two to that length) that
/// leads from the element's leaf at `index` to `root`.
pub open spec fn opening_accepted(items: Seq<StarkProofItem>, at: int, root: Seq<u8>, index: usize) -> bool {
    &&& 0 <= at
    &&& at + 1 < items.len()
    &&& items[at] is FieldElement
    &&& items[at + 1] matches StarkProofItem::AuthenticationPath(path) && 0 < path@.len() < 64 && path@.len() < usize::BITS
        && (index as nat) < pow2(path@.len()) && root == path_root(
        index as nat,
        byte_views(path@),
        leaf_hash(element_in(items[at])),
    )
}

/// From `start` on, the transcript holds an accepted opening for each of
/// `positions`, two objects apart, each of a well-formed element of `f`.
pub open spec fn openings_accepted(items: Seq<StarkProofItem>, start: int, root: Seq<u8>, positions: Seq<usize>, f: Field) -> bool {
    forall|j: int|
        0 <= j < positions.len() ==> opening_accepted(items, start + 2 * j, root, #[trigger] positions[j])
            && element_in(items[start + 2 * j]).field == f && element_in(items[start + 2 * j]).value < f.p
}

/// Reads an element and its authentication path, and checks the path
/// against `root` at `index`.
fn read_opening(proof_stream: &mut StarkProofStream, root: &Vec<u8>, index: usize) -> (r: Option<FieldElement>)
    requires
        old(proof_stream).wf(),
    ensures
        final(proof_stream).wf(),
        final(proof_stream).objects_view() == old(proof_stream).objects_view(),
        final(proof_stream).prefix_view() == old(proof_stream).prefix_view(),
        r is Some ==> final(proof_stream).read_view() == old(proof_stream).read_view() + 2,
        r is Some ==> old(proof_stream).read_view() + 2 <= old(proof_stream).objects_view().len(),
        r matches Some(e) ==> e == element_in(old(proof_stream).objects_view()[old(proof_stream).read_view() as int])
            && authenticates_at(old(proof_stream).objects_view(), old(proof_stream).read_view() as int, root@, index as int),
        r is Some <==> opening_accepted(old(proof_stream).objects_view(), old(proof_stream).read_view() as int, root@, index),
{
    if !proof_stream.has_unread() {
        return None;
    }
    let value = match proof_stream.peek() {
        StarkProofItem::FieldElement(e) => *e,
        _ => {
            return None;
        },
    };
    proof_stream.advance();
    if !proof_stream.has_unread() {
        return None;
    }
    let path = match proof_stream.peek() {
        StarkProofItem::AuthenticationPath(x) => copy_paths(x),
        _ => {
            return None;
        },
    };
    proof_stream.advance();
    if !check_path(root.as_slice(), index, path.as_slice(), &value) {
        return None;
    }
    Some(value)
}

/// The embedded FRI transcript decodes, and the FRI verifier's checks
/// hold of it: the last layer, and every sampled query.
pub open spec fn fri_accepts(fri: Fri, bytes: Seq<u8>, prefix: Seq<u8>) -> bool {
    exists|objs: Seq<FriProofItem>|
        #![trigger list_encoding(objs)]
        fits_at(list_encoding(objs), bytes, 0) && last_layer_ok(
            objs,
            0,
            fri.rounds_spec(),
            fri.field_spec(),
            fri.offset_spec().value as int,
            fri.omega_spec().value as int,
            fri.expansion_spec(),
        ) && (fri.rounds_spec() > 1 ==> forall|rd: int, s: int|
            0 <= rd < fri.rounds_spec() - 1 && 0 <= s < fri.tests_spec() ==> #[trigger] sample_ok(
                objs,
                0,
                prefix,
                fri.rounds_spec(),
                fri.tests_spec(),
                fri.domain_length_spec(),
                fri.field_spec(),
                fri.offset_spec().value as int,
                fri.omega_spec().value as int,
                rd,
                s,
            ))
}


/// The object is an embedded FRI proof that the FRI verifier accepts.
pub open spec fn fri_item_accepted(item: StarkProofItem, fri: Fri, prefix: Seq<u8>) -> bool {
    item matches StarkProofItem::FriProof(fb) && fri_accepts(fri, fb@, prefix)
}

/// The positions at which each boundary quotient codeword is opened: the
/// queried positions, then each one a trace step further.
pub open spec fn dup_positions(queried: Seq<usize>, step: nat, d: nat) -> Seq<int> {
    Seq::new(
        2 * queried.len(),
        |j: int|
            if j < queried.len() {
                queried[j] as int
            } else {
                (queried[j - queried.len()] + step) % (d as int)
            },
    )
}

/// The embedded FRI transcript `bytes` decodes to objects whose
/// first-round samples, taken as (position, value) pairs, are the pairs
/// `(queried[j], values[j])` in some order (none when there is at most one
/// round).
pub open spec fn fri_opened(fri: Fri, bytes: Seq<u8>, queried: Seq<usize>, values: Seq<FieldElement>) -> bool {
    exists|fobjs: Seq<FriProofItem>, found: Seq<(usize, FieldElement)>|
        #![trigger list_encoding(fobjs), found.to_multiset()]
        {
            &&& fits_at(list_encoding(fobjs), bytes, 0)
            &&& fri.rounds_spec() > 1 ==> values_of_first_round(
                found,
                0,
                fobjs,
                round_start(0, fri.rounds_spec(), fri.tests_spec(), 0),
                fri.tests_spec(),
                (fri.domain_length_spec() / 2) as int,
            )
            &&& fri.rounds_spec() <= 1 ==> found.len() == 0
            &&& queried.len() == values.len()
            &&& Seq::new(queried.len(), |j: int| (queried[j], values[j])).to_multiset() == found.to_multiset()
        }
}

/// The last cycle that a boundary constraint names (0 when there is none).
pub open spec fn last_cycle(boundary: Seq<BoundaryConstraint>) -> nat
    decreases boundary.len(),
{
    if boundary.len() == 0 {
        0
    } else {
        let rest = last_cycle(boundary.drop_last());
        if boundary.last().0 > rest {
            boundary.last().0 as nat
        } else {
            rest
        }
    }
}

/// Orders `(index, value)` pairs by index (insertion sort).
pub fn sort_by_index(v: &Vec<(usize, FieldElement)>) -> (r: Vec<(usize, FieldElement)>)
    ensures
        r@.len() == v@.len(),
        forall|i: int, j: int| 0 <= i < j < r@.len() ==> r@[i].0 <= r@[j].0,
        r@.to_multiset() == v@.to_multiset(),
{
    let mut r: Vec<(usize, FieldElement)> = Vec::new();
    let mut i: usize = 0;
    proof {
        assert(v@.take(0) =~= Seq::<(usize, FieldElement)>::empty());
    }
    while i < v.len()
        invariant
            i <= v@.len(),
            forall|a: int, b: int| 0 <= a < b < r@.len() ==> r@[a].0 <= r@[b].0,
            r@.to_multiset() == v@.take(i as int).to_multiset(),
            r@.len() == i,
        decreases v@.len() - i,
    {
        let x = v[i];
        let mut pos: usize = 0;
        while pos < r.len() && r[pos].0 <= x.0
            invariant
                pos <= r@.len(),
                forall|k: int| 0 <= k < pos ==> r@[k].0 <= x.0,
            decreases r@.len() - pos,
        {
            pos = pos + 1;
        }
        let ghost before = r@;
        r.insert(pos, x);
        proof {
            assert(r@ == before.insert(pos as int, x));
            assert forall|a: int, b: int| 0 <= a < b < r@.len() implies r@[a].0 <= r@[b].0 by {
                if b < pos {
                    assert(r@[a] == before[a] && r@[b] == before[b]);
                } else if b == pos {
                    assert(r@[a] == before[a]);
                } else if a < pos {
                    assert(r@[a] == before[a] && r@[b] == before[b - 1]);
                    if pos < before.len() {
                        assert(before[pos as int].0 > x.0);
                        assert(before[pos as int].0 <= before[b - 1].0);
                    }
                } else if a == pos {
                    assert(r@[b] == before[b - 1]);
                    assert(before[pos as int].0 > x.0);
                    assert(before[pos as int].0 <= before[b - 1].0);
                } else {
                    assert(r@[a] == before[a - 1] && r@[b] == before[b - 1]);
                }
            }
            vstd::seq_lib::to_multiset_insert(before, pos as int, x);
            assert(v@.take(i + 1) =~= v@.take(i as int).push(x));
            vstd::seq_lib::to_multiset_build(v@.take(i as int), x);
        }
        i = i + 1;
    }
    proof {
        assert(v@.take(i as int) =~= v@);
    }
    r
}

/// Every term of `c` names at most `n` variables.
fn terms_fit(c: &MPolynomial, n: usize) -> (b: bool)
    ensures
        b == forall|i: int| 0 <= i < c@.len() ==> (#[trigger] c@[i]).0.len() <= n,
{
    let terms = c.dictionary();
    let mut i: usize = 0;
    while i < terms.len()
        invariant
            crate::polynomial::multivariate::term_views(terms@) == c@,
            i <= terms@.len(),
            forall|k: int| 0 <= k < i ==> (#[trigger] c@[k]).0.len() <= n,
        decreases terms@.len() - i,
    {
        proof {
            assert(c@[i as int].0 == terms@[i as int].0@);
        }
        if terms[i].0.len() > n {
            return false;
        }
        i = i + 1;
    }
    true
}


/// Every value opened so far is a well-formed element of `f`.
pub open spec fn openings_over(o: Map<usize, FieldElement>, f: Field) -> bool {
    forall|k: usize| o.contains_key(k) ==> (#[trigger] o[k]).wf() && o[k].field == f
}

/// `a + b` in the field of `a`.
pub open spec fn fadd(a: FieldElement, b: FieldElement) -> FieldElement {
    a.field.element_of(a.value + b.value)
}

/// `a · b` in the field of `a`.
pub open spec fn fmul(a: FieldElement, b: FieldElement) -> FieldElement {
    a.field.element_of(a.value * b.value)
}

/// `a / b` in the field of `a`.
pub open spec fn fdiv(a: FieldElement, b: FieldElement) -> FieldElement {
    a.field.element_of(a.value * spec_inverse((b.value % a.field.p) as nat, a.field.p as nat))
}

/// `a^e` in the field of `a`.
pub open spec fn fpow(a: FieldElement, e: nat) -> FieldElement {
    a.field.element_of(pow(a.value as int, e))
}

/// The value of a polynomial at `x`.
pub open spec fn value_at(q: Polynomial, x: FieldElement) -> FieldElement {
    x.field.element_of(poly_eval(q@, x.value as int))
}

/// The trace value recovered from a boundary quotient's value at `x`:
/// `quotient · zerofier(x) + interpolant(x)`.
pub open spec fn recovered(leaf: FieldElement, zerofier: Polynomial, interpolant: Polynomial, x: FieldElement) -> FieldElement {
    fadd(fmul(leaf, value_at(zerofier, x)), value_at(interpolant, x))
}

/// The value of a transition constraint at a point.
pub open spec fn constraint_value(c: MPolynomial, point: Seq<FieldElement>) -> FieldElement {
    c.evaluation_field(point).element_of(mp_eval(c@, point_values(point)))
}

/// The combination after its first `k` transition terms: each
/// constraint's value divided by the zerofier's value, weighted, and again
/// shifted by `x^(max_degree − bound)`, weighted.
pub open spec fn transition_part(
    acc: FieldElement,
    cs: Seq<MPolynomial>,
    point: Seq<FieldElement>,
    zt: FieldElement,
    x: FieldElement,
    bounds: Seq<usize>,
    max_degree: int,
    ws: Seq<FieldElement>,
    k: nat,
) -> FieldElement
    decreases k,
{
    if k == 0 {
        acc
    } else {
        let i = k - 1;
        let prev = transition_part(acc, cs, point, zt, x, bounds, max_degree, ws, (k - 1) as nat);
        let q = fdiv(constraint_value(cs[i], point), zt);
        let shifted = fmul(q, fpow(x, (max_degree - bounds[i]) as nat));
        fadd(fadd(prev, fmul(q, ws[1 + 2 * i])), fmul(shifted, ws[2 + 2 * i]))
    }
}

/// The combination after its first `k` boundary terms: each register's
/// quotient value, weighted, and again shifted, weighted, from weight
/// `base` on.
pub open spec fn boundary_part(
    acc: FieldElement,
    values: Seq<FieldElement>,
    x: FieldElement,
    bounds: Seq<usize>,
    max_degree: int,
    ws: Seq<FieldElement>,
    base: int,
    k: nat,
) -> FieldElement
    decreases k,
{
    if k == 0 {
        acc
    } else {
        let r = k - 1;
        let prev = boundary_part(acc, values, x, bounds, max_degree, ws, base, (k - 1) as nat);
        let shifted = fmul(values[r], fpow(x, (max_degree - bounds[r]) as nat));
        fadd(fadd(prev, fmul(values[r], ws[base + 2 * r])), fmul(shifted, ws[base + 2 * r + 1]))
    }
}

impl Stark {
    /// The FRI-domain point at position `index`: `offset · omega^index`.
    pub open spec fn domain_point(&self, index: int) -> FieldElement {
        fmul(self.generator_spec(), fpow(self.omega_spec(), index as nat))
    }

    /// The position one trace step after `index`.
    pub open spec fn next_position(&self, index: int) -> int {
        (index % (self.fri_spec().domain_length_spec() as int) + self.expansion_spec()) % (self.fri_spec().domain_length_spec() as int)
    }

    /// Every register's value is opened at `index`.
    pub open spec fn opened_at(leaves: Seq<Openings>, index: usize) -> bool {
        forall|r: int| 0 <= r < leaves.len() ==> (#[trigger] leaves[r])@.contains_key(index)
    }

    /// The trace values recovered at `x` from the values opened at `index`.
    pub open spec fn recovered_row(
        leaves: Seq<Openings>,
        index: usize,
        zerofiers: Seq<Polynomial>,
        interpolants: Seq<Polynomial>,
        x: FieldElement,
    ) -> Seq<FieldElement> {
        Seq::new(leaves.len(), |r: int| recovered(leaves[r]@[index], zerofiers[r], interpolants[r], x))
    }

    /// The nonlinear combination at position `index`, recomputed from the
    /// opened values.
    pub open spec fn combination_spec(
        &self,
        index: usize,
        leaves: Seq<Openings>,
        randomizer: Openings,
        constraints: Seq<MPolynomial>,
        zerofiers: Seq<Polynomial>,
        interpolants: Seq<Polynomial>,
        transition_zerofier: Polynomial,
        transition_bounds: Seq<usize>,
        boundary_bounds: Seq<usize>,
        max_degree: int,
        weights: Seq<FieldElement>,
    ) -> FieldElement {
        let x = self.domain_point(index as int);
        let next = self.next_position(index as int) as usize;
        let x_next = self.domain_point(next as int);
        let current = Self::recovered_row(leaves, index, zerofiers, interpolants, x);
        let following = Self::recovered_row(leaves, next, zerofiers, interpolants, x_next);
        let point = seq![x] + current + following;
        let zt = value_at(transition_zerofier, x);
        let start = fmul(randomizer@[index], weights[0]);
        let t = transition_part(start, constraints, point, zt, x, transition_bounds, max_degree, weights, constraints.len());
        let values = Seq::new(leaves.len(), |r: int| leaves[r]@[index]);
        boundary_part(t, values, x, boundary_bounds, max_degree, weights, (1 + 2 * constraints.len()) as int, leaves.len())
    }

    /// When the combination can be recomputed at `index`: every value is
    /// opened there and one step further, every constraint names at most
    /// the point's variables, the transition zerofier does not vanish at
    /// the position, and no degree bound exceeds the maximal degree.
    pub open spec fn combination_defined(
        &self,
        index: usize,
        leaves: Seq<Openings>,
        randomizer: Openings,
        constraints: Seq<MPolynomial>,
        transition_zerofier: Polynomial,
        transition_bounds: Seq<usize>,
        boundary_bounds: Seq<usize>,
        max_degree: int,
    ) -> bool {
        &&& Self::opened_at(leaves, index)
        &&& Self::opened_at(leaves, self.next_position(index as int) as usize)
        &&& randomizer@.contains_key(index)
        &&& forall|i: int, j: int|
            0 <= i < constraints.len() && 0 <= j < constraints[i]@.len() ==> (#[trigger] constraints[i]@[j]).0.len() <= 1 + 2
                * leaves.len()
        &&& value_at(transition_zerofier, self.domain_point(index as int)).value != 0
        &&& forall|i: int| 0 <= i < transition_bounds.len() ==> #[trigger] transition_bounds[i] <= max_degree
        &&& forall|r: int| 0 <= r < boundary_bounds.len() ==> #[trigger] boundary_bounds[r] <= max_degree
    }

    /// The value at FRI-domain position `index` of the nonlinear
    /// combination, recomputed from the opened values: the trace values at
    /// the position and one trace step further are recovered from the
    /// boundary quotients, the transition constraints are evaluated there
    /// and divided by the transition zerofier, and randomizer, quotients
    /// and shifted quotients are weighted and summed.  `None` when the
    /// combination is not defined there (see
    /// [`Stark::combination_defined`]).
    pub fn combination_at(
        &self,
        index: usize,
        leaves: &Vec<Openings>,
        randomizer: &Openings,
        constraints: &[MPolynomial],
        zerofiers: &Vec<Polynomial>,
        interpolants: &Vec<Polynomial>,
        transition_zerofier: &Polynomial,
        transition_bounds: &Vec<usize>,
        boundary_bounds: &Vec<usize>,
        max_degree: usize,
        weights: &Vec<FieldElement>,
    ) -> (r: Option<FieldElement>)
        requires
            leaves@.len() == self.num_registers_spec(),
            forall|k: int| 0 <= k < leaves@.len() ==> openings_over((#[trigger] leaves@[k])@, self.field_spec()),
            openings_over(randomizer@, self.field_spec()),
            forall|i: int| 0 <= i < constraints@.len() && (#[trigger] constraints@[i])@.len() > 0 ==> constraints@[i].field_spec() == self.field_spec(),
            zerofiers@.len() == self.num_registers_spec(),
            interpolants@.len() == self.num_registers_spec(),
            forall|k: int| 0 <= k < zerofiers@.len() ==> poly_over(#[trigger] zerofiers@[k], self.field_spec()),
            forall|k: int| 0 <= k < interpolants@.len() ==> poly_over(#[trigger] interpolants@[k], self.field_spec()),
            poly_over(*transition_zerofier, self.field_spec()),
            transition_bounds@.len() == constraints@.len(),
            boundary_bounds@.len() == self.num_registers_spec(),
            weights@.len() == 1 + 2 * constraints@.len() + 2 * self.num_registers_spec(),
            forall|k: int| 0 <= k < weights@.len() ==> (#[trigger] weights@[k]).wf() && weights@[k].field == self.field_spec(),
        ensures
            r is Some <==> self.combination_defined(
                index,
                leaves@,
                *randomizer,
                constraints@,
                *transition_zerofier,
                transition_bounds@,
                boundary_bounds@,
                max_degree as int,
            ),
            r matches Some(v) ==> v == self.combination_spec(
                index,
                leaves@,
                *randomizer,
                constraints@,
                zerofiers@,
                interpolants@,
                *transition_zerofier,
                transition_bounds@,
                boundary_bounds@,
                max_degree as int,
                weights@,
            ) && v.wf() && v.field == self.field_spec(),
    {
        proof {
            use_type_invariant(self);
            self.lemma_inv();
        }
        let f = self.field();
        let width = self.register_count();
        let d = self.fri().domain_length();
        let step = self.expansion();
        let g = self.generator();
        let omega = self.omega();
        let x = g * omega.pow(index as u64);
        proof {
            assert(d >= 4) by {
                assert(self.omicron_domain_spec().len() * self.expansion_spec() >= 4) by (nonlinear_arith)
                    requires
                        self.omicron_domain_spec().len() >= 1,
                        self.expansion_spec() >= 4,
                ;
            }
        }
        let next = add_mod_usize(index % d, step, d);
        let x_next = g * omega.pow(next as u64);
        let ghost lv = leaves@;
        let ghost xs = x;
        proof {
            assert(x == self.domain_point(index as int));
            assert(next as int == self.next_position(index as int));
            assert(x_next == self.domain_point(next as int));
            vstd::arithmetic::div_mod::lemma_mod_bound(g.value * pow(omega.value as int, index as nat) % (f.p as int), f.p as int);
        }
        let mut point: Vec<FieldElement> = Vec::new();
        point.push(x);
        let mut current: Vec<FieldElement> = Vec::new();
        let mut following: Vec<FieldElement> = Vec::new();
        let mut k: usize = 0;
        while k < width
            invariant
                width == self.num_registers_spec(),
                f == self.field_spec(),
                f.p == MAIN_PRIME,
                x.wf() && x.field == f,
                x_next.wf() && x_next.field == f,
                lv == leaves@,
                leaves@.len() == width,
                next as int == self.next_position(index as int),
                forall|j: int| 0 <= j < leaves@.len() ==> openings_over((#[trigger] leaves@[j])@, f),
                zerofiers@.len() == width,
                interpolants@.len() == width,
                forall|j: int| 0 <= j < zerofiers@.len() ==> poly_over(#[trigger] zerofiers@[j], f),
                forall|j: int| 0 <= j < interpolants@.len() ==> poly_over(#[trigger] interpolants@[j], f),
                k <= width,
                current@ =~= Self::recovered_row(lv, index, zerofiers@, interpolants@, x).take(k as int),
                following@ =~= Self::recovered_row(lv, next, zerofiers@, interpolants@, x_next).take(k as int),
                forall|j: int| 0 <= j < k ==> lv[j]@.contains_key(index) && lv[j]@.contains_key(next),
                forall|j: int| 0 <= j < k ==> (#[trigger] current@[j]).wf() && current@[j].field == f,
                forall|j: int| 0 <= j < k ==> (#[trigger] following@[j]).wf() && following@[j].field == f,
            decreases width - k,
        {
            let a = match leaves[k].get(index) {
                Some(v) => v,
                None => {
                    return None;
                },
            };
            let b = match leaves[k].get(next) {
                Some(v) => v,
                None => {
                    return None;
                },
            };
            proof {
                assert(openings_over(leaves@[k as int]@, f));
            }
            let za = zerofiers[k].evaluate(&x);
            let ia = interpolants[k].evaluate(&x);
            current.push(a * za + ia);
            let zb = zerofiers[k].evaluate(&x_next);
            let ib = interpolants[k].evaluate(&x_next);
            following.push(b * zb + ib);
            k = k + 1;
            proof {
                assert(current@ =~= Self::recovered_row(lv, index, zerofiers@, interpolants@, x).take(k as int));
                assert(following@ =~= Self::recovered_row(lv, next, zerofiers@, interpolants@, x_next).take(k as int));
            }
        }
        let mut k: usize = 0;
        while k < width
            invariant
                width == self.num_registers_spec(),
                f == self.field_spec(),
                current@.len() == width,
                forall|j: int| 0 <= j < width ==> (#[trigger] current@[j]).wf() && current@[j].field == f,
                x.wf() && x.field == f,
                k <= width,
                point@ =~= seq![x] + current@.take(k as int),
                forall|j: int| 0 <= j < point@.len() ==> (#[trigger] point@[j]).wf() && point@[j].field == f,
            decreases width - k,
        {
            point.push(current[k]);
            k = k + 1;
            proof {
                assert(point@ =~= seq![x] + current@.take(k as int));
            }
        }
        let mut k: usize = 0;
        while k < width
            invariant
                width == self.num_registers_spec(),
                f == self.field_spec(),
                following@.len() == width,
                current@.len() == width,
                forall|j: int| 0 <= j < width ==> (#[trigger] following@[j]).wf() && following@[j].field == f,
                k <= width,
                point@ =~= seq![x] + current@ + following@.take(k as int),
                forall|j: int| 0 <= j < point@.len() ==> (#[trigger] point@[j]).wf() && point@[j].field == f,
            decreases width - k,
        {
            point.push(following[k]);
            k = k + 1;
            proof {
                assert(point@ =~= seq![x] + current@ + following@.take(k as int));
            }
        }
        proof {
            assert(current@ =~= Self::recovered_row(lv, index, zerofiers@, interpolants@, x));
            assert(following@ =~= Self::recovered_row(lv, next, zerofiers@, interpolants@, x_next));
            assert(following@.take(width as int) =~= following@);
            assert(Self::opened_at(lv, index));
            assert(Self::opened_at(lv, next));
        }
        let ghost pt = point@;
        let zt = transition_zerofier.evaluate(&x);
        if zt.value == 0 {
            return None;
        }
        let rv = match randomizer.get(index) {
            Some(v) => v,
            None => {
                return None;
            },
        };
        let mut acc = rv * weights[0];
        let ghost start = acc;
        let mut w: usize = 1;
        let nw = weights.len();
        let mut i: usize = 0;
        while i < constraints.len()
            invariant
                f == self.field_spec(),
                f.p == MAIN_PRIME,
                nw == weights@.len(),
                weights@.len() == 1 + 2 * constraints@.len() + 2 * width,
                width == self.num_registers_spec(),
                forall|j: int| 0 <= j < weights@.len() ==> (#[trigger] weights@[j]).wf() && weights@[j].field == f,
                forall|j: int| 0 <= j < constraints@.len() && (#[trigger] constraints@[j])@.len() > 0 ==> constraints@[j].field_spec() == f,
                pt == point@,
                lv == leaves@,
                leaves@.len() == width,
                point@.len() == 1 + 2 * width,
                forall|j: int| 0 <= j < point@.len() ==> (#[trigger] point@[j]).wf() && point@[j].field == f,
                transition_bounds@.len() == constraints@.len(),
                x.wf() && x.field == f,
                zt.wf() && zt.field == f && zt.value != 0,
                acc.wf() && acc.field == f,
                i <= constraints@.len(),
                w == 1 + 2 * i,
                acc == transition_part(start, constraints@, pt, zt, x, transition_bounds@, max_degree as int, weights@, i as nat),
                forall|a: int, j: int|
                    0 <= a < i && 0 <= j < constraints@[a]@.len() ==> (#[trigger] constraints@[a]@[j]).0.len() <= 1 + 2 * width,
                forall|a: int| 0 <= a < i ==> #[trigger] transition_bounds@[a] <= max_degree,
            decreases constraints@.len() - i,
        {
            if !terms_fit(&constraints[i], point.len()) {
                return None;
            }
            let value = constraints[i].evaluate(point.as_slice());
            let quotient = value / zt;
            if transition_bounds[i] > max_degree {
                return None;
            }
            let shift = max_degree - transition_bounds[i];
            let shifted = quotient * x.pow(shift as u64);
            acc = acc + quotient * weights[w];
            acc = acc + shifted * weights[w + 1];
            w = w + 2;
            i = i + 1;
        }
        let ghost t = acc;
        let ghost values = Seq::new(width as nat, |r: int| lv[r]@[index]);
        let mut k: usize = 0;
        while k < width
            invariant
                f == self.field_spec(),
                f.p == MAIN_PRIME,
                nw == weights@.len(),
                weights@.len() == 1 + 2 * constraints@.len() + 2 * width,
                width == self.num_registers_spec(),
                forall|j: int| 0 <= j < weights@.len() ==> (#[trigger] weights@[j]).wf() && weights@[j].field == f,
                lv == leaves@,
                leaves@.len() == width,
                forall|j: int| 0 <= j < leaves@.len() ==> openings_over((#[trigger] leaves@[j])@, f),
                forall|j: int| 0 <= j < width ==> lv[j]@.contains_key(index),
                values == Seq::new(width as nat, |r: int| lv[r]@[index]),
                boundary_bounds@.len() == width,
                x.wf() && x.field == f,
                acc.wf() && acc.field == f,
                k <= width,
                w == 1 + 2 * constraints@.len() + 2 * k,
                acc == boundary_part(t, values, x, boundary_bounds@, max_degree as int, weights@, (1 + 2 * constraints@.len()) as int, k as nat),
                forall|r: int| 0 <= r < k ==> #[trigger] boundary_bounds@[r] <= max_degree,
            decreases width - k,
        {
            let value = match leaves[k].get(index) {
                Some(v) => v,
                None => {
                    return None;
                },
            };
            proof {
                assert(openings_over(leaves@[k as int]@, f));
                assert(value == values[k as int]);
            }
            if boundary_bounds[k] > max_degree {
                return None;
            }
            let shift = max_degree - boundary_bounds[k];
            let shifted = value * x.pow(shift as u64);
            acc = acc + value * weights[w];
            acc = acc + shifted * weights[w + 1];
            w = w + 2;
            k = k + 1;
        }
        Some(acc)
    }
}

impl Stark {
    /// The checks of the verifier on a decoded transcript `objs`, with
    /// the positions `queried` that the FRI proof sampled: the checks on
    /// the roots and openings, and an embedded FRI proof that the FRI
    /// verifier accepts.
    pub open spec fn transcript_ok(&self, objs: Seq<StarkProofItem>, prefix: Seq<u8>, queried: Seq<usize>) -> bool {
        &&& self.transcript_openings_ok(objs, queried)
        &&& fri_item_accepted(objs[self.num_registers_spec() + 1int], self.fri_spec(), prefix)
    }

    /// The verifier's checks on the roots and openings of a decoded
    /// transcript: the boundary quotient roots, the randomizer root, then
    /// the openings of each boundary quotient codeword at the duplicated
    /// positions and of the randomizer codeword at the queried positions,
    /// each authenticated against its root.
    pub open spec fn transcript_openings_ok(&self, objs: Seq<StarkProofItem>, queried: Seq<usize>) -> bool {
        let rr = self.num_registers_spec() as int;
        let nq = queried.len() as int;
        let nd = 2 * nq;
        let dup = dup_positions(queried, self.expansion_spec(), self.fri_spec().domain_length_spec());
        let open_start = rr + 2;
        &&& objs.len() >= open_start + 2 * (rr * nd) + 2 * nq
        &&& forall|r: int| 0 <= r < rr ==> (#[trigger] objs[r]) is BoundaryQuotientRoot
        &&& objs[rr] is RandomizerRoot
        &&& forall|r: int, j: int|
            0 <= r < rr && 0 <= j < nd ==> authenticates_at(
                objs,
                open_start + 2 * (r * nd) + 2 * j,
                root_bytes(#[trigger] objs[r]),
                #[trigger] dup[j],
            )
        &&& forall|j: int|
            0 <= j < nq ==> authenticates_at(
                objs,
                open_start + 2 * (rr * nd) + 2 * j,
                root_bytes(objs[rr]),
                #[trigger] queried[j] as int,
            )
    }

    /// The weights that the verifier samples from the transcript's state
    /// after the roots: field elements of the digests of the challenge
    /// followed by `i` zero bytes.
    pub open spec fn verifier_weights(&self, objs: Seq<StarkProofItem>, prefix: Seq<u8>, number: nat) -> Seq<FieldElement> {
        let challenge = shake256_output(challenge_input(prefix, objs, self.num_registers_spec() + 1int), 32);
        Seq::new(
            number,
            |i: int|
                self.field_spec().element_of(bytes_to_nat(blake2b512_digest(challenge + Seq::new(i as nat, |k: int| 0u8))) as int),
        )
    }

    /// The comparison an accepting run makes: at each queried position
    /// the nonlinear combination, recomputed from the opened values, is
    /// defined and has the residue of the value that the FRI proof opened
    /// there.  `leaves` hold, per register, boundary quotient values opened
    /// in the transcript, `randomizer` the randomizer values; zerofiers,
    /// degree bounds and weights are those that the constraints and the
    /// transcript determine; `interpolants` hold one polynomial per
    /// register, with at most as many coefficients as the register has
    /// boundary points, that interpolates its boundary values (where the
    /// points' differences are units).
    pub open spec fn combinations_checked(
        &self,
        constraints: Seq<MPolynomial>,
        boundary: Seq<BoundaryConstraint>,
        objs: Seq<StarkProofItem>,
        prefix: Seq<u8>,
        queried: Seq<usize>,
        values: Seq<FieldElement>,
        leaves: Seq<Openings>,
        randomizer: Openings,
        zerofiers: Seq<Polynomial>,
        interpolants: Seq<Polynomial>,
        transition_zerofier: Polynomial,
        transition_bounds: Seq<usize>,
        boundary_bounds: Seq<usize>,
    ) -> bool {
        let rr = self.num_registers_spec() as int;
        let nq = queried.len() as int;
        let dup = dup_positions(queried, self.expansion_spec(), self.fri_spec().domain_length_spec()).map_values(
            |x: int| x as usize,
        );
        let open_start = rr + 2;
        let rtl = last_cycle(boundary) + 1 + self.num_randomizers_spec();
        let t = self.trace_length_spec() as int;
        let weights = self.verifier_weights(objs, prefix, (1 + 2 * constraints.len() + 2 * rr) as nat);
        let md = self.max_degree_spec(constraints);
        &&& objs[rr + 1] matches StarkProofItem::FriProof(fb) && fri_opened(self.fri_spec(), fb@, queried, values)
        &&& leaves.len() == rr
        &&& forall|r: int|
            0 <= r < rr ==> opened_from((#[trigger] leaves[r])@, objs, open_start + 2 * (r * (2 * nq)), dup, 2 * nq)
        &&& opened_from(randomizer@, objs, open_start + 2 * (rr * (2 * nq)), queried, nq)
        &&& zerofiers.len() == rr
        &&& forall|r: int| 0 <= r < rr ==> (#[trigger] zerofiers[r])@ == boundary_zerofier(boundary, r as nat, self.omicron_spec())
        &&& interpolants.len() == rr
        &&& forall|r: int|
            0 <= r < rr ==> (#[trigger] interpolants[r])@.len() <= boundary_points(boundary, r as nat, self.omicron_spec()).len()
                && interpolates_boundary(interpolants[r]@, boundary, r as nat, self.omicron_spec())
        &&& transition_zerofier@ == zerofier(self.omicron_domain_spec().take(t - 1), self.field_spec())
        &&& transition_bounds.len() == constraints.len()
        &&& forall|i: int|
            0 <= i < constraints.len() ==> #[trigger] transition_bounds[i] == max_term_degree(constraints[i]@, self.point_degrees())
                - (t - 1)
        &&& boundary_bounds.len() == rr
        &&& forall|r: int|
            0 <= r < rr ==> #[trigger] boundary_bounds[r] == rtl - 1 - (if boundary_zerofier(boundary, r as nat, self.omicron_spec()).len() == 0 {
                0
            } else {
                boundary_zerofier(boundary, r as nat, self.omicron_spec()).len() - 1
            })
        &&& forall|j: int|
            0 <= j < nq ==> self.combination_defined(
                #[trigger] queried[j],
                leaves,
                randomizer,
                constraints,
                transition_zerofier,
                transition_bounds,
                boundary_bounds,
                md,
            ) && self.combination_spec(
                queried[j],
                leaves,
                randomizer,
                constraints,
                zerofiers,
                interpolants,
                transition_zerofier,
                transition_bounds,
                boundary_bounds,
                md,
                weights,
            ).value == values[j].value
    }

    /// An accepting run on `proof`: it decodes to `objs`, the transcript
    /// checks hold with the positions `queried` that the FRI proof
    /// sampled, and the recomputed combinations match the values that FRI
    /// opened there.
    pub open spec fn run_accepts(
        &self,
        constraints: Seq<MPolynomial>,
        boundary: Seq<BoundaryConstraint>,
        proof: Seq<u8>,
        prefix: Seq<u8>,
        objs: Seq<StarkProofItem>,
        queried: Seq<usize>,
        values: Seq<FieldElement>,
        leaves: Seq<Openings>,
        randomizer: Openings,
        zerofiers: Seq<Polynomial>,
        interpolants: Seq<Polynomial>,
        transition_zerofier: Polynomial,
        transition_bounds: Seq<usize>,
        boundary_bounds: Seq<usize>,
    ) -> bool {
        &&& fits_at(list_encoding(objs), proof, 0)
        &&& self.transcript_ok(objs, prefix, queried)
        &&& self.combinations_checked(
            constraints,
            boundary,
            objs,
            prefix,
            queried,
            values,
            leaves,
            randomizer,
            zerofiers,
            interpolants,
            transition_zerofier,
            transition_bounds,
            boundary_bounds,
        )
    }

    /// Whether every register has fewer boundary constraints than `limit`.
    pub fn boundary_counts_below(&self, boundary: &[BoundaryConstraint], limit: usize) -> (b: bool)
        ensures
            b == forall|r: nat| r < self.num_registers_spec() ==> (#[trigger] boundary_points(boundary@, r, self.omicron_spec())).len() < limit,
    {
        proof {
            use_type_invariant(self);
            self.lemma_inv();
        }
        let omicron = *self.omicron();
        let width = self.register_count();
        let mut r: usize = 0;
        while r < width
            invariant
                width == self.num_registers_spec(),
                omicron == self.omicron_spec(),
                omicron.field.p > 0,
                r <= width,
                forall|k: nat| k < r ==> (#[trigger] boundary_points(boundary@, k, omicron)).len() < limit,
            decreases width - r,
        {
            let (points, _values) = register_boundary(boundary, r, omicron);
            if points.len() >= limit {
                return false;
            }
            r = r + 1;
        }
        true
    }

    /// Reads the openings of one codeword at the given positions,
    /// authenticating each against `root`; `None` when an object has the
    /// wrong kind, a path does not lead to the root, or a value is not a
    /// well-formed element of the field.
    #[verifier::rlimit(40)]
    fn read_openings(&self, proof_stream: &mut StarkProofStream, root: &Vec<u8>, positions: &Vec<usize>) -> (r: Option<Openings>)
        requires
            old(proof_stream).wf(),
        ensures
            final(proof_stream).wf(),
            final(proof_stream).objects_view() == old(proof_stream).objects_view(),
            final(proof_stream).prefix_view() == old(proof_stream).prefix_view(),
            r is Some ==> final(proof_stream).read_view() == old(proof_stream).read_view() + 2 * positions@.len(),
            r is Some && positions@.len() > 0 ==> old(proof_stream).read_view() + 2 * positions@.len() <= old(proof_stream).objects_view().len(),
            r matches Some(o) ==> openings_over(o@, self.field_spec()),
            r matches Some(o) ==> opened_from(
                o@,
                old(proof_stream).objects_view(),
                old(proof_stream).read_view() as int,
                positions@,
                positions@.len() as int,
            ),
            r is Some ==> forall|j: int|
                0 <= j < positions@.len() ==> authenticates_at(
                    old(proof_stream).objects_view(),
                    old(proof_stream).read_view() + 2 * j,
                    root@,
                    #[trigger] positions@[j] as int,
                ),
            r is Some <==> openings_accepted(
                old(proof_stream).objects_view(),
                old(proof_stream).read_view() as int,
                root@,
                positions@,
                self.field_spec(),
            ),
    {
        let f = self.field();
        let ghost start = proof_stream.read_view() as int;
        let ghost objs = proof_stream.objects_view();
        let mut o = Openings::new();
        let mut j: usize = 0;
        while j < positions.len()
            invariant
                f == self.field_spec(),
                proof_stream.wf(),
                proof_stream.objects_view() == objs,
                objs == old(proof_stream).objects_view(),
                start == old(proof_stream).read_view(),
                proof_stream.prefix_view() == old(proof_stream).prefix_view(),
                proof_stream.read_view() == start + 2 * j,
                j > 0 ==> start + 2 * j <= objs.len(),
                j <= positions@.len(),
                openings_over(o@, f),
                forall|k: int| 0 <= k < j ==> authenticates_at(objs, start + 2 * k, root@, #[trigger] positions@[k] as int),
                opened_from(o@, objs, start, positions@, j as int),
                forall|k: int|
                    0 <= k < j ==> opening_accepted(objs, start + 2 * k, root@, #[trigger] positions@[k])
                        && element_in(objs[start + 2 * k]).field == f && element_in(objs[start + 2 * k]).value < f.p,
            decreases positions@.len() - j,
        {
            let value = match read_opening(proof_stream, root, positions[j]) {
                Some(v) => v,
                None => {
                    proof {
                        assert(!opening_accepted(objs, start + 2 * j, root@, positions@[j as int]));
                        assert(!openings_accepted(objs, start, root@, positions@, f));
                    }
                    return None;
                },
            };
            if value.field != f || value.value >= f.p {
                proof {
                    assert(element_in(objs[start + 2 * j]) == value);
                    assert(!openings_accepted(objs, start, root@, positions@, f));
                }
                return None;
            }
            let ghost before = o@;
            o.insert(positions[j], value);
            proof {
                assert forall|k: int|
                    #![trigger positions@[k]]
                    0 <= k < j + 1 implies o@.contains_key(positions@[k]) && exists|k2: int|
                        #![trigger positions@[k2]]
                        0 <= k2 < j + 1 && positions@[k2] == positions@[k] && o@[positions@[k]] == element_in(objs[start + 2 * k2]) by {
                    if positions@[k] == positions@[j as int] {
                        assert(positions@[j as int] == positions@[k]);
                    } else {
                        let k2 = choose|k2: int|
                            #![trigger positions@[k2]]
                            0 <= k2 < j && positions@[k2] == positions@[k] && before[positions@[k]] == element_in(objs[start + 2 * k2]);
                        assert(positions@[k2] == positions@[k]);
                    }
                }
            }
            j = j + 1;
        }
        proof {
            assert(openings_accepted(objs, start, root@, positions@, f));
        }
        Some(o)
    }

    /// Whether, at every queried position, the nonlinear combination
    /// recomputed from the opened values is defined and has the residue of
    /// the value that the FRI proof opened there (`values[j]` at
    /// `indices[j]`).
    #[verifier::loop_isolation(false)]
    fn combinations_match(
        &self,
        indices: &Vec<usize>,
        values: &Vec<FieldElement>,
        leaves: &Vec<Openings>,
        randomizer: &Openings,
        constraints: &[MPolynomial],
        zerofiers: &Vec<Polynomial>,
        interpolants: &Vec<Polynomial>,
        transition_zerofier: &Polynomial,
        transition_bounds: &Vec<usize>,
        boundary_bounds: &Vec<usize>,
        max_degree: usize,
        weights: &Vec<FieldElement>,
    ) -> (b: bool)
        requires
            values@.len() == indices@.len(),
            leaves@.len() == self.num_registers_spec(),
            forall|k: int| 0 <= k < leaves@.len() ==> openings_over((#[trigger] leaves@[k])@, self.field_spec()),
            openings_over(randomizer@, self.field_spec()),
            forall|i: int| 0 <= i < constraints@.len() && (#[trigger] constraints@[i])@.len() > 0 ==> constraints@[i].field_spec() == self.field_spec(),
            zerofiers@.len() == self.num_registers_spec(),
            interpolants@.len() == self.num_registers_spec(),
            forall|k: int| 0 <= k < zerofiers@.len() ==> poly_over(#[trigger] zerofiers@[k], self.field_spec()),
            forall|k: int| 0 <= k < interpolants@.len() ==> poly_over(#[trigger] interpolants@[k], self.field_spec()),
            poly_over(*transition_zerofier, self.field_spec()),
            transition_bounds@.len() == constraints@.len(),
            boundary_bounds@.len() == self.num_registers_spec(),
            weights@.len() == 1 + 2 * constraints@.len() + 2 * self.num_registers_spec(),
            forall|k: int| 0 <= k < weights@.len() ==> (#[trigger] weights@[k]).wf() && weights@[k].field == self.field_spec(),
        ensures
            b <==> forall|j: int|
                0 <= j < indices@.len() ==> self.combination_defined(
                    #[trigger] indices@[j],
                    leaves@,
                    *randomizer,
                    constraints@,
                    *transition_zerofier,
                    transition_bounds@,
                    boundary_bounds@,
                    max_degree as int,
                ) && self.combination_spec(
                    indices@[j],
                    leaves@,
                    *randomizer,
                    constraints@,
                    zerofiers@,
                    interpolants@,
                    *transition_zerofier,
                    transition_bounds@,
                    boundary_bounds@,
                    max_degree as int,
                    weights@,
                ).value == values@[j].value,
    {
        let mut position: usize = 0;
        while position < indices.len()
            invariant
                position <= indices@.len(),
                forall|j: int|
                    0 <= j < position ==> self.combination_defined(
                        #[trigger] indices@[j],
                        leaves@,
                        *randomizer,
                        constraints@,
                        *transition_zerofier,
                        transition_bounds@,
                        boundary_bounds@,
                        max_degree as int,
                    ) && self.combination_spec(
                        indices@[j],
                        leaves@,
                        *randomizer,
                        constraints@,
                        zerofiers@,
                        interpolants@,
                        *transition_zerofier,
                        transition_bounds@,
                        boundary_bounds@,
                        max_degree as int,
                        weights@,
                    ).value == values@[j].value,
            decreases indices@.len() - position,
        {
            let combination = match self.combination_at(
                indices[position],
                leaves,
                randomizer,
                constraints,
                zerofiers,
                interpolants,
                transition_zerofier,
                transition_bounds,
                boundary_bounds,
                max_degree,
                weights,
            ) {
                Some(v) => v,
                None => {
                    return false;
                },
            };
            if combination != values[position] {
                return false;
            }
            position = position + 1;
        }
        true
    }

    /// The inputs the combination check reads, as the verifier obtains
    /// them: per register, openings of its boundary quotient codeword at
    /// the duplicated positions; openings of the randomizer codeword at the
    /// positions; the boundary zerofiers; interpolants of the boundary
    /// values with at most as many coefficients as boundary points; and
    /// the transition zerofier.
    pub open spec fn combination_inputs(
        &self,
        boundary: Seq<BoundaryConstraint>,
        objs: Seq<StarkProofItem>,
        indices: Seq<usize>,
        dup: Seq<usize>,
        leaves: Seq<Openings>,
        randomizer: Openings,
        zerofiers: Seq<Polynomial>,
        interpolants: Seq<Polynomial>,
        transition_zerofier: Polynomial,
    ) -> bool {
        let rr = self.num_registers_spec() as int;
        let nq = indices.len() as int;
        let open_start = rr + 2;
        let f = self.field_spec();
        let t = self.trace_length_spec() as int;
        &&& leaves.len() == rr
        &&& forall|r: int|
            0 <= r < rr ==> opened_from((#[trigger] leaves[r])@, objs, open_start + 2 * (r * (2 * nq)), dup, 2 * nq)
                && openings_over(leaves[r]@, f)
        &&& opened_from(randomizer@, objs, open_start + 2 * (rr * (2 * nq)), indices, nq)
        &&& openings_over(randomizer@, f)
        &&& zerofiers.len() == rr
        &&& forall|r: int|
            0 <= r < rr ==> (#[trigger] zerofiers[r])@ == boundary_zerofier(boundary, r as nat, self.omicron_spec())
                && poly_over(zerofiers[r], f)
        &&& interpolants.len() == rr
        &&& forall|r: int|
            0 <= r < rr ==> (#[trigger] interpolants[r])@.len() <= boundary_points(boundary, r as nat, self.omicron_spec()).len()
                && interpolates_boundary(interpolants[r]@, boundary, r as nat, self.omicron_spec())
                && poly_over(interpolants[r], f)
        &&& transition_zerofier@ == zerofier(self.omicron_domain_spec().take(t - 1), f)
        &&& poly_over(transition_zerofier, f)
    }

    /// The combination recomputed from the inputs is defined at every
    /// position and has the residue of the value that FRI opened there.
    pub open spec fn combinations_hold(
        &self,
        constraints: Seq<MPolynomial>,
        boundary: Seq<BoundaryConstraint>,
        objs: Seq<StarkProofItem>,
        prefix: Seq<u8>,
        indices: Seq<usize>,
        values: Seq<FieldElement>,
        leaves: Seq<Openings>,
        randomizer: Openings,
        zerofiers: Seq<Polynomial>,
        interpolants: Seq<Polynomial>,
        transition_zerofier: Polynomial,
    ) -> bool {
        let rr = self.num_registers_spec() as int;
        let rtl = last_cycle(boundary) + 1 + self.num_randomizers_spec();
        let tb = self.transition_bounds_spec(constraints);
        let bb = self.boundary_bounds_spec(rtl, boundary);
        let md = self.max_degree_spec(constraints);
        let weights = self.verifier_weights(objs, prefix, (1 + 2 * constraints.len() + 2 * rr) as nat);
        forall|j: int|
            0 <= j < indices.len() ==> self.combination_defined(
                #[trigger] indices[j],
                leaves,
                randomizer,
                constraints,
                transition_zerofier,
                tb,
                bb,
                md,
            ) && self.combination_spec(
                indices[j],
                leaves,
                randomizer,
                constraints,
                zerofiers,
                interpolants,
                transition_zerofier,
                tb,
                bb,
                md,
                weights,
            ).value == values[j].value
    }

    /// The verifier's checks once FRI has opened the pairs `srt`, sorted by
    /// position: the openings of each boundary quotient codeword at the
    /// duplicated positions and of the randomizer codeword at the
    /// positions are authenticated; the boundary points of each register
    /// are distinct and fewer than the randomized trace is long; and the
    /// combination holds for every choice of the inputs it reads.
    #[verifier::opaque]
    pub open spec fn positions_accepted(
        &self,
        constraints: Seq<MPolynomial>,
        boundary: Seq<BoundaryConstraint>,
        objs: Seq<StarkProofItem>,
        prefix: Seq<u8>,
        srt: Seq<(usize, FieldElement)>,
    ) -> bool {
        let rr = self.num_registers_spec() as int;
        let indices = srt.map_values(|q: (usize, FieldElement)| q.0);
        let values = srt.map_values(|q: (usize, FieldElement)| q.1);
        let nq = indices.len() as int;
        let dup = dup_positions(indices, self.expansion_spec(), self.fri_spec().domain_length_spec()).map_values(
            |x: int| x as usize,
        );
        let open_start = rr + 2;
        let rtl = last_cycle(boundary) + 1 + self.num_randomizers_spec();
        let f = self.field_spec();
        &&& forall|r: int|
            0 <= r < rr ==> openings_accepted(objs, open_start + 2 * (r * (2 * nq)), root_bytes(#[trigger] objs[r]), dup, f)
        &&& openings_accepted(objs, open_start + 2 * (rr * (2 * nq)), root_bytes(objs[rr]), indices, f)
        &&& self.boundary_points_distinct_spec(boundary)
        &&& forall|r: nat| r < rr ==> (#[trigger] boundary_points(boundary, r, self.omicron_spec())).len() < rtl
        &&& forall|
            leaves: Seq<Openings>,
            randomizer: Openings,
            zerofiers: Seq<Polynomial>,
            interpolants: Seq<Polynomial>,
            transition_zerofier: Polynomial,
        |
            self.combination_inputs(boundary, objs, indices, dup, leaves, randomizer, zerofiers, interpolants, transition_zerofier)
                ==> #[trigger] self.combinations_hold(
                constraints,
                boundary,
                objs,
                prefix,
                indices,
                values,
                leaves,
                randomizer,
                zerofiers,
                interpolants,
                transition_zerofier,
            )
    }

    /// The verifier's checks given the decoded embedded FRI transcript
    /// `fobjs`: the FRI verifier's checks pass, and the checks on the
    /// positions hold for every arrangement of the pairs FRI opens sorted
    /// by position.
    #[verifier::opaque]
    pub open spec fn fri_transcript_accepted(
        &self,
        constraints: Seq<MPolynomial>,
        boundary: Seq<BoundaryConstraint>,
        objs: Seq<StarkProofItem>,
        prefix: Seq<u8>,
        fobjs: Seq<FriProofItem>,
    ) -> bool {
        let fri = self.fri_spec();
        let found = if fri.rounds_spec() > 1 {
            first_round_pairs(fobjs, 0, prefix, fri.rounds_spec(), fri.tests_spec(), fri.domain_length_spec())
        } else {
            Seq::empty()
        };
        &&& fri.checks_pass(fobjs, 0, prefix)
        &&& forall|srt: Seq<(usize, FieldElement)>|
            sorted_by_position(srt) && srt.to_multiset() == found.to_multiset() ==> #[trigger] self.positions_accepted(
                constraints,
                boundary,
                objs,
                prefix,
                srt,
            )
    }

    /// The verifier's checks given the decoded transcript `objs`: the
    /// boundary quotient roots, the randomizer root and an embedded FRI
    /// proof, whose bytes decode, and the checks hold for every decoding.
    #[verifier::opaque]
    pub open spec fn transcript_accepted(
        &self,
        constraints: Seq<MPolynomial>,
        boundary: Seq<BoundaryConstraint>,
        objs: Seq<StarkProofItem>,
        prefix: Seq<u8>,
    ) -> bool {
        let rr = self.num_registers_spec() as int;
        &&& objs.len() > rr + 1
        &&& forall|r: int| 0 <= r < rr ==> (#[trigger] objs[r]) is BoundaryQuotientRoot
        &&& objs[rr] is RandomizerRoot
        &&& objs[rr + 1] is FriProof
        &&& transcript_decodable::<FriProofItem>(fri_bytes_of(objs[rr + 1]))
        &&& forall|fobjs: Seq<FriProofItem>|
            fits_at(list_encoding(fobjs), fri_bytes_of(objs[rr + 1]), 0) ==> #[trigger] self.fri_transcript_accepted(
                constraints,
                boundary,
                objs,
                prefix,
                fobjs,
            )
    }

    /// The checks the verifier makes on `proof` with the Fiat-Shamir prefix
    /// `prefix`: the boundary cycles leave room for the randomizer rows,
    /// the proof decodes, and the checks hold for every decoding.
    #[verifier::opaque]
    pub open spec fn verifier_accepts(
        &self,
        constraints: Seq<MPolynomial>,
        boundary: Seq<BoundaryConstraint>,
        proof: Seq<u8>,
        prefix: Seq<u8>,
    ) -> bool {
        &&& last_cycle(boundary) < usize::MAX - self.num_randomizers_spec()
        &&& transcript_decodable::<StarkProofItem>(proof)
        &&& forall|objs: Seq<StarkProofItem>|
            fits_at(list_encoding(objs), proof, 0) ==> #[trigger] self.transcript_accepted(constraints, boundary, objs, prefix)
    }

    /// Unfolds an accepting verdict on a proof that decodes to `objs`.
    pub proof fn lemma_accepts_unfold(
        &self,
        constraints: Seq<MPolynomial>,
        boundary: Seq<BoundaryConstraint>,
        proof: Seq<u8>,
        prefix: Seq<u8>,
        objs: Seq<StarkProofItem>,
    )
        requires
            self.verifier_accepts(constraints, boundary, proof, prefix),
        ensures
            last_cycle(boundary) < usize::MAX - self.num_randomizers_spec(),
            transcript_decodable::<StarkProofItem>(proof),
            fits_at(list_encoding(objs), proof, 0) ==> self.transcript_accepted(constraints, boundary, objs, prefix),
    {
        reveal(Stark::verifier_accepts);
    }

    /// Unfolds the checks on a decoded transcript, with a decoding
    /// `fobjs` of its embedded FRI proof.
    pub proof fn lemma_transcript_unfold(
        &self,
        constraints: Seq<MPolynomial>,
        boundary: Seq<BoundaryConstraint>,
        objs: Seq<StarkProofItem>,
        prefix: Seq<u8>,
        fobjs: Seq<FriProofItem>,
    )
        requires
            self.transcript_accepted(constraints, boundary, objs, prefix),
        ensures
            objs.len() > self.num_registers_spec() + 1,
            forall|r: int| 0 <= r < self.num_registers_spec() ==> (#[trigger] objs[r]) is BoundaryQuotientRoot,
            objs[self.num_registers_spec() as int] is RandomizerRoot,
            objs[self.num_registers_spec() + 1int] is FriProof,
            transcript_decodable::<FriProofItem>(fri_bytes_of(objs[self.num_registers_spec() + 1int])),
            fits_at(list_encoding(fobjs), fri_bytes_of(objs[self.num_registers_spec() + 1int]), 0)
                ==> self.fri_transcript_accepted(constraints, boundary, objs, prefix, fobjs),
    {
        reveal(Stark::transcript_accepted);
    }

    /// Unfolds the checks given a decoded FRI transcript, with an
    /// arrangement `srt` of the pairs it opens.
    pub proof fn lemma_fri_transcript_unfold(
        &self,
        constraints: Seq<MPolynomial>,
        boundary: Seq<BoundaryConstraint>,
        objs: Seq<StarkProofItem>,
        prefix: Seq<u8>,
        fobjs: Seq<FriProofItem>,
        srt: Seq<(usize, FieldElement)>,
    )
        requires
            self.fri_transcript_accepted(constraints, boundary, objs, prefix, fobjs),
        ensures
            self.fri_spec().checks_pass(fobjs, 0, prefix),
            sorted_by_position(srt) && srt.to_multiset() == (if self.fri_spec().rounds_spec() > 1 {
                first_round_pairs(
                    fobjs,
                    0,
                    prefix,
                    self.fri_spec().rounds_spec(),
                    self.fri_spec().tests_spec(),
                    self.fri_spec().domain_length_spec(),
                )
            } else {
                Seq::empty()
            }).to_multiset() ==> self.positions_accepted(constraints, boundary, objs, prefix, srt),
    {
        reveal(Stark::fri_transcript_accepted);
    }

    /// Unfolds the checks on the sampled positions, with inputs of the
    /// combination check.
    pub proof fn lemma_positions_unfold(
        &self,
        constraints: Seq<MPolynomial>,
        boundary: Seq<BoundaryConstraint>,
        objs: Seq<StarkProofItem>,
        prefix: Seq<u8>,
        srt: Seq<(usize, FieldElement)>,
        leaves: Seq<Openings>,
        randomizer: Openings,
        zerofiers: Seq<Polynomial>,
        interpolants: Seq<Polynomial>,
        transition_zerofier: Polynomial,
    )
        requires
            self.positions_accepted(constraints, boundary, objs, prefix, srt),
        ensures
            ({
                let rr = self.num_registers_spec() as int;
                let indices = srt.map_values(|q: (usize, FieldElement)| q.0);
                let values = srt.map_values(|q: (usize, FieldElement)| q.1);
                let nq = indices.len() as int;
                let dup = dup_positions(indices, self.expansion_spec(), self.fri_spec().domain_length_spec()).map_values(
                    |x: int| x as usize,
                );
                let rtl = last_cycle(boundary) + 1 + self.num_randomizers_spec();
                &&& forall|r: int|
                    0 <= r < rr ==> openings_accepted(objs, rr + 2 + 2 * (r * (2 * nq)), root_bytes(#[trigger] objs[r]), dup, self.field_spec())
                &&& openings_accepted(objs, rr + 2 + 2 * (rr * (2 * nq)), root_bytes(objs[rr]), indices, self.field_spec())
                &&& self.boundary_points_distinct_spec(boundary)
                &&& forall|r: nat| r < rr ==> (#[trigger] boundary_points(boundary, r, self.omicron_spec())).len() < rtl
                &&& self.combination_inputs(boundary, objs, indices, dup, leaves, randomizer, zerofiers, interpolants, transition_zerofier)
                    ==> self.combinations_hold(
                    constraints,
                    boundary,
                    objs,
                    prefix,
                    indices,
                    values,
                    leaves,
                    randomizer,
                    zerofiers,
                    interpolants,
                    transition_zerofier,
                )
            }),
    {
        reveal(Stark::positions_accepted);
    }

    /// Verifies a STARK proof using the Fiat-Shamir prefix of a template
    /// transcript.  The trace length is taken as one more than the last
    /// boundary cycle.  A proof of the wrong shape, or one that a check
    /// rejects, is answered `false`.
    #[verifier::rlimit(100)]
    #[verifier::spinoff_prover]
    pub fn verify_with_stream(
        &self,
        proof: &[u8],
        transition_constraints: &[MPolynomial],
        boundary: &[BoundaryConstraint],
        proof_stream_template: &StarkProofStream,
    ) -> (ok: bool)
        requires
            self.air_ok(transition_constraints@, boundary@),
        ensures
            self.verifier_accepts(transition_constraints@, boundary@, proof@, proof_stream_template.prefix_view()) ==> ok,
            ok ==> exists|
                objs: Seq<StarkProofItem>,
                queried: Seq<usize>,
                values: Seq<FieldElement>,
                leaves: Seq<Openings>,
                randomizer: Openings,
                zerofiers: Seq<Polynomial>,
                interpolants: Seq<Polynomial>,
                transition_zerofier: Polynomial,
                transition_bounds: Seq<usize>,
                boundary_bounds: Seq<usize>,
            |
                #![trigger self.run_accepts(transition_constraints@, boundary@, proof@, proof_stream_template.prefix_view(), objs, queried, values, leaves, randomizer, zerofiers, interpolants, transition_zerofier, transition_bounds, boundary_bounds)]
                self.run_accepts(
                    transition_constraints@,
                    boundary@,
                    proof@,
                    proof_stream_template.prefix_view(),
                    objs,
                    queried,
                    values,
                    leaves,
                    randomizer,
                    zerofiers,
                    interpolants,
                    transition_zerofier,
                    transition_bounds,
                    boundary_bounds,
                ),
    {
        proof {
            use_type_invariant(self);
            self.lemma_inv();
        }
        let f = self.field();
        let width = self.register_count();
        let mut last_cycle: usize = 0;
        let mut i: usize = 0;
        while i < boundary.len()
            invariant
                i <= boundary@.len(),
                last_cycle == self::last_cycle(boundary@.take(i as int)),
            decreases boundary@.len() - i,
        {
            proof {
                assert(boundary@.take(i + 1).drop_last() =~= boundary@.take(i as int));
            }
            if boundary[i].0 > last_cycle {
                last_cycle = boundary[i].0;
            }
            i = i + 1;
        }
        proof {
            assert(boundary@.take(i as int) =~= boundary@);
        }
        if last_cycle >= usize::MAX - self.num_randomizers() {
            proof {
                if self.verifier_accepts(transition_constraints@, boundary@, proof@, proof_stream_template.prefix_view()) {
                    self.lemma_accepts_unfold(transition_constraints@, boundary@, proof@, proof_stream_template.prefix_view(), Seq::empty());
                }
            }
            return false;
        }
        let randomized_trace_length = last_cycle + 1 + self.num_randomizers();
        let mut proof_stream = match StarkProofStream::try_deserialize_with_prefix(proof, copy_bytes(proof_stream_template.prefix())) {
            Some(s) => s,
            None => {
                proof {
                    if self.verifier_accepts(transition_constraints@, boundary@, proof@, proof_stream_template.prefix_view()) {
                        self.lemma_accepts_unfold(transition_constraints@, boundary@, proof@, proof_stream_template.prefix_view(), Seq::empty());
                    }
                }
                return false;
            },
        };
        let ghost objs = proof_stream.objects_view();
        let ghost prefix = proof_stream_template.prefix_view();
        let ghost accept = self.verifier_accepts(transition_constraints@, boundary@, proof@, prefix);
        let ghost ta = self.transcript_accepted(transition_constraints@, boundary@, objs, prefix);
        proof {
            if accept {
                self.lemma_accepts_unfold(transition_constraints@, boundary@, proof@, prefix, objs);
            }
            assert(accept ==> ta);
        }
        let mut roots: Vec<Vec<u8>> = Vec::new();
        let mut r: usize = 0;
        while r < width
            invariant
                width == self.num_registers_spec(),
                proof_stream.wf(),
                proof_stream.objects_view() == objs,
                proof_stream.prefix_view() == prefix,
                proof_stream.read_view() == r,
                r <= width,
                roots@.len() == r,
                forall|k: int| 0 <= k < r ==> (#[trigger] objs[k]) is BoundaryQuotientRoot && roots@[k]@ == root_bytes(objs[k]),
                accept ==> ta,
                ta == self.transcript_accepted(transition_constraints@, boundary@, objs, prefix),
                accept == self.verifier_accepts(transition_constraints@, boundary@, proof@, proof_stream_template.prefix_view()),
            decreases width - r,
        {
            let root = match read_boundary_root(&mut proof_stream) {
                Some(x) => x,
                None => {
                    proof {
                        if ta {
                            self.lemma_transcript_unfold(transition_constraints@, boundary@, objs, prefix, Seq::empty());
                        }
                        assert(!ta);
                    }
                    return false;
                },
            };
            roots.push(root);
            r = r + 1;
        }
        let randomizer_root = match read_randomizer_root(&mut proof_stream) {
            Some(x) => x,
            None => {
                proof {
                    if ta {
                        self.lemma_transcript_unfold(transition_constraints@, boundary@, objs, prefix, Seq::empty());
                    }
                    assert(!ta);
                }
                return false;
            },
        };
        let number = 1 + 2 * transition_constraints.len() + 2 * width;
        let challenge = proof_stream.verifier_fiat_shamir(32);
        let weights = self.sample_weights(number, challenge.as_slice());
        proof {
            assert(weights@ =~= self.verifier_weights(objs, prefix, number as nat));
        }
        let fri_bytes = match read_fri_proof(&mut proof_stream) {
            Some(x) => x,
            None => {
                proof {
                    if ta {
                        self.lemma_transcript_unfold(transition_constraints@, boundary@, objs, prefix, Seq::empty());
                    }
                    assert(!ta);
                }
                return false;
            },
        };
        proof {
            assert(fri_bytes_of(objs[width as int + 1]) == fri_bytes@);
        }
        proof {
            assert(objs.len() >= width + 2);
        }
        let mut fri_stream: FriProofStream = match FriProofStream::try_deserialize_with_prefix(
            fri_bytes.as_slice(),
            copy_bytes(proof_stream.prefix()),
        ) {
            Some(s) => s,
            None => {
                proof {
                    if ta {
                        self.lemma_transcript_unfold(transition_constraints@, boundary@, objs, prefix, Seq::empty());
                    }
                    assert(!ta);
                }
                return false;
            },
        };
        let ghost fri_objs = fri_stream.objects_view();
        let ghost fta = self.fri_transcript_accepted(transition_constraints@, boundary@, objs, prefix, fri_objs);
        proof {
            assert(fits_at(list_encoding(fri_objs), fri_bytes_of(objs[width as int + 1]), 0));
            if ta {
                self.lemma_transcript_unfold(transition_constraints@, boundary@, objs, prefix, fri_objs);
            }
            assert(ta ==> fta);
        }
        let mut found: Vec<(usize, FieldElement)> = Vec::new();
        if !self.fri().verify(&mut fri_stream, &mut found) {
            proof {
                if fta {
                    self.lemma_fri_transcript_unfold(transition_constraints@, boundary@, objs, prefix, fri_objs, Seq::empty());
                }
                assert(!fta);
            }
            return false;
        }
        let ghost fri_found = found@;
        proof {
            assert(found@.take(0) =~= Seq::<(usize, FieldElement)>::empty());
            assert(fri_accepts(self.fri_spec(), fri_bytes@, prefix));
            assert(fri_item_accepted(objs[width as int + 1], self.fri_spec(), prefix));
        }
        let sorted = sort_by_index(&found);
        let mut indices: Vec<usize> = Vec::new();
        let mut values: Vec<FieldElement> = Vec::new();
        let mut k: usize = 0;
        while k < sorted.len()
            invariant
                k <= sorted@.len(),
                indices@.len() == k,
                values@.len() == k,
                forall|j: int| 0 <= j < k ==> #[trigger] indices@[j] == sorted@[j].0,
                forall|j: int| 0 <= j < k ==> #[trigger] values@[j] == sorted@[j].1,
            decreases sorted@.len() - k,
        {
            indices.push(sorted[k].0);
            values.push(sorted[k].1);
            k = k + 1;
        }
        let d = self.fri().domain_length();
        let step = self.expansion();
        proof {
            assert(d >= 4) by {
                assert(self.omicron_domain_spec().len() * self.expansion_spec() >= 4) by (nonlinear_arith)
                    requires
                        self.omicron_domain_spec().len() >= 1,
                        self.expansion_spec() >= 4,
                ;
            }
        }
        let mut dup: Vec<usize> = Vec::new();
        let mut k: usize = 0;
        while k < indices.len()
            invariant
                k <= indices@.len(),
                dup@ == indices@.take(k as int),
            decreases indices@.len() - k,
        {
            dup.push(indices[k]);
            k = k + 1;
            proof {
                assert(dup@ =~= indices@.take(k as int));
            }
        }
        let mut k: usize = 0;
        while k < indices.len()
            invariant
                d > 0,
                k <= indices@.len(),
                dup@.len() == indices@.len() + k,
                forall|j: int| 0 <= j < indices@.len() ==> #[trigger] dup@[j] == indices@[j],
                forall|j: int| 0 <= j < k ==> #[trigger] dup@[indices@.len() + j] == (indices@[j] + step) % (d as int),
            decreases indices@.len() - k,
        {
            let next = add_mod_usize(indices[k] % d, step, d);
            proof {
                vstd::arithmetic::div_mod::lemma_add_mod_noop_right(step as int, indices@[k as int] as int, d as int);
            }
            dup.push(next);
            k = k + 1;
        }
        proof {
            let dp = dup_positions(indices@, self.expansion_spec(), self.fri_spec().domain_length_spec());
            assert forall|j: int| 0 <= j < dup@.len() implies #[trigger] dp[j] == dup@[j] as int by {
                if j >= indices@.len() {
                    assert(dup@[indices@.len() + (j - indices@.len())] == (indices@[j - indices@.len()] + step) % (d as int));
                }
            }
        }
        let ghost pa = self.positions_accepted(transition_constraints@, boundary@, objs, prefix, sorted@);
        assert(accept ==> pa) by {
            let fri = self.fri_spec();
            let fspec = if fri.rounds_spec() > 1 {
                first_round_pairs(fri_objs, 0, prefix, fri.rounds_spec(), fri.tests_spec(), fri.domain_length_spec())
            } else {
                Seq::empty()
            };
            assert(found@ =~= fspec);
            assert(sorted_by_position(sorted@));
            assert(sorted@.to_multiset() == fspec.to_multiset());
            if fta {
                self.lemma_fri_transcript_unfold(transition_constraints@, boundary@, objs, prefix, fri_objs, sorted@);
            }
            assert(fta ==> pa);
        }
        proof {
            assert(indices@ =~= sorted@.map_values(|q: (usize, FieldElement)| q.0));
            assert(values@ =~= sorted@.map_values(|q: (usize, FieldElement)| q.1));
            assert(dup@ =~= dup_positions(indices@, self.expansion_spec(), self.fri_spec().domain_length_spec()).map_values(
                |x: int| x as usize,
            ));
        }
        let ghost open_start = width as int + 2;
        let ghost nd = dup@.len() as int;
        let mut leaves: Vec<Openings> = Vec::new();
        let mut r: usize = 0;
        while r < width
            invariant
                width == self.num_registers_spec(),
                f == self.field_spec(),
                proof_stream.wf(),
                proof_stream.objects_view() == objs,
                proof_stream.prefix_view() == prefix,
                open_start == width + 2,
                objs.len() >= width + 2,
                nd == dup@.len(),
                proof_stream.read_view() == open_start + 2 * (r * nd),
                roots@.len() == width,
                forall|k: int| 0 <= k < width ==> (#[trigger] objs[k]) is BoundaryQuotientRoot && roots@[k]@ == root_bytes(objs[k]),
                r <= width,
                leaves@.len() == r,
                forall|k: int| 0 <= k < r ==> openings_over((#[trigger] leaves@[k])@, f),
                forall|q: int|
                    0 <= q < r ==> opened_from((#[trigger] leaves@[q])@, objs, open_start + 2 * (q * nd), dup@, nd),
                accept ==> pa,
                pa == self.positions_accepted(transition_constraints@, boundary@, objs, prefix, sorted@),
                accept == self.verifier_accepts(transition_constraints@, boundary@, proof@, proof_stream_template.prefix_view()),
                indices@ == sorted@.map_values(|q: (usize, FieldElement)| q.0),
                dup@ == dup_positions(indices@, self.expansion_spec(), self.fri_spec().domain_length_spec()).map_values(
                    |x: int| x as usize,
                ),
                forall|q: int, j: int|
                    0 <= q < r && 0 <= j < nd ==> authenticates_at(
                        objs,
                        open_start + 2 * (q * nd) + 2 * j,
                        root_bytes(#[trigger] objs[q]),
                        #[trigger] dup@[j] as int,
                    ),
            decreases width - r,
        {
            let o = match self.read_openings(&mut proof_stream, &roots[r], &dup) {
                Some(o) => o,
                None => {
                    proof {
                        let nq = indices@.len() as int;
                        assert(nd == 2 * nq);
                        assert(!openings_accepted(objs, width as int + 2 + 2 * (r * (2 * nq)), root_bytes(objs[r as int]), dup@, f));
                        if pa {
                            self.lemma_positions_unfold(transition_constraints@, boundary@, objs, prefix, sorted@, leaves@, arbitrary(), Seq::empty(), Seq::empty(), arbitrary());
                        }
                        assert(!pa);
                    }
                    return false;
                },
            };
            let ghost before = leaves@;
            leaves.push(o);
            proof {
                assert forall|q: int|
                    0 <= q < r + 1 implies opened_from((#[trigger] leaves@[q])@, objs, open_start + 2 * (q * nd), dup@, nd) by {
                    if q < r {
                        assert(leaves@[q] == before[q]);
                    }
                }
                assert((r + 1) * nd == r * nd + nd) by (nonlinear_arith);
                assert forall|q: int, j: int|
                    0 <= q < r + 1 && 0 <= j < nd implies authenticates_at(
                        objs,
                        open_start + 2 * (q * nd) + 2 * j,
                        root_bytes(#[trigger] objs[q]),
                        #[trigger] dup@[j] as int,
                    ) by {
                    if q == r {
                        assert(roots@[q]@ == root_bytes(objs[q]));
                    }
                }
            }
            r = r + 1;
        }
        let randomizer = match self.read_openings(&mut proof_stream, &randomizer_root, &indices) {
            Some(o) => o,
            None => {
                proof {
                    let nq = indices@.len() as int;
                    assert(nd == 2 * nq);
                    assert(randomizer_root@ == root_bytes(objs[width as int]));
                    if pa {
                        self.lemma_positions_unfold(transition_constraints@, boundary@, objs, prefix, sorted@, leaves@, arbitrary(), Seq::empty(), Seq::empty(), arbitrary());
                    }
                    assert(!pa);
                }
                return false;
            },
        };
        proof {
            let rr = width as int;
            let nq = indices@.len() as int;
            assert(nd == 2 * nq);
            if nq == 0 {
                assert(rr * nd == 0) by (nonlinear_arith)
                    requires
                        nd == 0,
                ;
            }
            assert(objs.len() >= open_start + 2 * (rr * nd) + 2 * nq);
            assert(forall|r: int| 0 <= r < rr ==> (#[trigger] objs[r]) is BoundaryQuotientRoot);
            assert(objs[rr] is RandomizerRoot);
            assert(fri_item_accepted(objs[rr + 1], self.fri_spec(), prefix));
            assert(forall|j: int|
                0 <= j < nq ==> authenticates_at(
                    objs,
                    open_start + 2 * (rr * nd) + 2 * j,
                    root_bytes(objs[rr]),
                    #[trigger] indices@[j] as int,
                ));
            assert(self.transcript_ok(objs, prefix, indices@)) by {
                assert forall|q: int, j: int|
                    0 <= q < rr && 0 <= j < nd implies authenticates_at(
                        objs,
                        open_start + 2 * (q * nd) + 2 * j,
                        root_bytes(#[trigger] objs[q]),
                        #[trigger] dup_positions(indices@, self.expansion_spec(), self.fri_spec().domain_length_spec())[j],
                    ) by {
                    assert(dup_positions(indices@, self.expansion_spec(), self.fri_spec().domain_length_spec())[j] == dup@[j] as int);
                }
            }
        }
        if !self.boundary_points_distinct(boundary) {
            proof {
                if pa {
                    self.lemma_positions_unfold(transition_constraints@, boundary@, objs, prefix, sorted@, leaves@, randomizer, Seq::empty(), Seq::empty(), arbitrary());
                }
                assert(!pa);
            }
            return false;
        }
        if !self.boundary_counts_below(boundary, randomized_trace_length) {
            proof {
                if pa {
                    self.lemma_positions_unfold(transition_constraints@, boundary@, objs, prefix, sorted@, leaves@, randomizer, Seq::empty(), Seq::empty(), arbitrary());
                }
                assert(!pa);
            }
            return false;
        }
        let zerofiers = self.boundary_zerofiers(boundary);
        let interpolants = self.boundary_interpolants(boundary);
        let transition_zerofier = self.transition_zerofier();
        proof {
            assert forall|k: int| 0 <= k < weights@.len() implies (#[trigger] weights@[k]).wf() && weights@[k].field == f by {
            }
            assert forall|k: int| 0 <= k < interpolants@.len() implies poly_over(#[trigger] interpolants@[k], f) by {
            }
            assert forall|k: int| 0 <= k < zerofiers@.len() implies poly_over(#[trigger] zerofiers@[k], f) by {
            }
        }
        let transition_bounds = self.transition_quotient_degree_bounds(transition_constraints);
        let boundary_bounds = self.boundary_quotient_degree_bounds(randomized_trace_length, boundary);
        let max_degree = self.max_degree(transition_constraints);
        let matched = self.combinations_match(
            &indices,
            &values,
            &leaves,
            &randomizer,
            transition_constraints,
            &zerofiers,
            &interpolants,
            &transition_zerofier,
            &transition_bounds,
            &boundary_bounds,
            max_degree,
            &weights,
        );
        assert(matched || !pa) by {
            if !matched && pa {
                self.lemma_positions_unfold(
                    transition_constraints@,
                    boundary@,
                    objs,
                    prefix,
                    sorted@,
                    leaves@,
                    randomizer,
                    zerofiers@,
                    interpolants@,
                    transition_zerofier,
                );
                assert(transition_bounds@ =~= self.transition_bounds_spec(transition_constraints@));
                assert(boundary_bounds@ =~= self.boundary_bounds_spec(randomized_trace_length as nat, boundary@));
                assert(randomized_trace_length == self::last_cycle(boundary@) + 1 + self.num_randomizers_spec());
                assert(self.combination_inputs(
                    boundary@,
                    objs,
                    indices@,
                    dup@,
                    leaves@,
                    randomizer,
                    zerofiers@,
                    interpolants@,
                    transition_zerofier,
                ));
                assert(false);
            }
        }
        proof {
            if matched {
                let rr = width as int;
                let nq = indices@.len() as int;
                assert(dup_positions(indices@, self.expansion_spec(), self.fri_spec().domain_length_spec()).map_values(
                    |x: int| x as usize,
                ) =~= dup@);
                assert(Seq::new(indices@.len(), |j: int| (indices@[j], values@[j])) =~= sorted@);
                assert(fits_at(list_encoding(fri_objs), fri_bytes@, 0));
                assert(sorted@.to_multiset() == fri_found.to_multiset());
                assert(fri_opened(self.fri_spec(), fri_bytes@, indices@, values@));
                assert(objs[rr + 1] matches StarkProofItem::FriProof(fb) && fb@ == fri_bytes@);
                assert(self.combinations_checked(
                    transition_constraints@,
                    boundary@,
                    objs,
                    prefix,
                    indices@,
                    values@,
                    leaves@,
                    randomizer,
                    zerofiers@,
                    interpolants@,
                    transition_zerofier,
                    transition_bounds@,
                    boundary_bounds@,
                ));
                assert(self.run_accepts(
                    transition_constraints@,
                    boundary@,
                    proof@,
                    prefix,
                    objs,
                    indices@,
                    values@,
                    leaves@,
                    randomizer,
                    zerofiers@,
                    interpolants@,
                    transition_zerofier,
                    transition_bounds@,
                    boundary_bounds@,
                ));
            }
        }
        matched
    }

    /// Verifies a STARK proof: [`Stark::verify_with_stream`] with an empty
    /// Fiat-Shamir prefix.
    pub fn verify(&self, proof: &[u8], transition_constraints: &[MPolynomial], boundary: &[BoundaryConstraint]) -> (ok: bool)
        requires
            self.air_ok(transition_constraints@, boundary@),
        ensures
            self.verifier_accepts(transition_constraints@, boundary@, proof@, Seq::<u8>::empty()) ==> ok,
            ok ==> exists|
                objs: Seq<StarkProofItem>,
                queried: Seq<usize>,
                values: Seq<FieldElement>,
                leaves: Seq<Openings>,
                randomizer: Openings,
                zerofiers: Seq<Polynomial>,
                interpolants: Seq<Polynomial>,
                transition_zerofier: Polynomial,
                transition_bounds: Seq<usize>,
                boundary_bounds: Seq<usize>,
            |
                #![trigger self.run_accepts(transition_constraints@, boundary@, proof@, Seq::<u8>::empty(), objs, queried, values, leaves, randomizer, zerofiers, interpolants, transition_zerofier, transition_bounds, boundary_bounds)]
                self.run_accepts(
                    transition_constraints@,
                    boundary@,
                    proof@,
                    Seq::<u8>::empty(),
                    objs,
                    queried,
                    values,
                    leaves,
                    randomizer,
                    zerofiers,
                    interpolants,
                    transition_zerofier,
                    transition_bounds,
                    boundary_bounds,
                ),
    {
        let template = StarkProofStream::new();
        self.verify_with_stream(proof, transition_constraints, boundary, &template)
    }
}

} // verus!
