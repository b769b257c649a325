//! Fast Reed-Solomon IOP of Proximity: commitment and verification.
//!
//! A codeword (the values of a polynomial on a coset of a group of
//! powers of two) is committed with a Merkle tree and folded in half
//! round after round with Fiat-Shamir challenges; the verifier checks
//! the final codeword's degree and, at sampled positions, that the
//! folds were computed honestly (colinearity) against the commitments.


pub mod degree;
pub mod fold;
pub mod honest;
pub mod item;

pub use item::{FriProofItem, FriProofStream};

use vstd::prelude::*;
use vstd::arithmetic::power::*;
use vstd::arithmetic::power2::*;

use crate::bytes::{bytes_eq, concat_bytes, zero_bytes};
use crate::crypto::digest::{blake2b512, blake2b512_digest, shake256_output};
use crate::crypto::proof_stream::challenge_input;
use crate::field::bytes_to_nat;
use crate::fri::fold::{codeword_in_field, fold_codeword, fold_value};
use crate::math::{is_power_of_two, lemma_pow2_lt_half, lemma_unit_mod, lemma_unit_nonzero, lemma_unit_pow};
use crate::crypto::merkle::{byte_views, hashed_leaves, merkle_path, merkle_root, path_root};
use crate::polynomial::{differences_invertible, distinct_points, on_line, points_in_field, poly_eval, Polynomial};
use crate::polynomial::{interpolant_is_linear, test_colinearity};
use crate::crypto::Merkle;
use crate::field::element::decimal_digits;
use crate::field::{Field, FieldElement};
use crate::field::arith::spec_inverse;
use crate::polynomial::lagrange_sum;
use crate::math::is_unit;
use vstd::arithmetic::div_mod::*;
use vstd::arithmetic::mul::*;

verus! {

/// The Merkle leaves of a codeword: the decimal bytes of each element.
pub open spec fn codeword_leaves(c: Seq<FieldElement>) -> Seq<Seq<u8>> {
    c.map_values(|e: FieldElement| decimal_digits(e.value as nat))
}

/// The Merkle commitment of a codeword.
pub open spec fn codeword_root(c: Seq<FieldElement>) -> Seq<u8> {
    merkle_root(hashed_leaves(codeword_leaves(c)))
}

/// The number of folding rounds for a codeword of length `len`: halve
/// while it is longer than the expansion factor and than four times the
/// number of colinearity tests.
pub open spec fn rounds_for(len: nat, expansion: nat, tests: nat) -> nat
    decreases len,
{
    if len > expansion && 4 * tests < len {
        1 + rounds_for(len / 2, expansion, tests)
    } else {
        0
    }
}

/// The big-endian value of the last machine word of a byte string:
/// bytes are shifted in from the right and the high ones fall off.
pub open spec fn word_of(bytes: Seq<u8>) -> usize
    decreases bytes.len(),
{
    if bytes.len() == 0 {
        0
    } else {
        (word_of(bytes.drop_last()) << 8usize) ^ (bytes.last() as usize)
    }
}

/// The index drawn from the `counter`-th hash of `seed`.
pub open spec fn drawn_index(seed: Seq<u8>, counter: nat, size: nat) -> int {
    word_of(blake2b512_digest(seed + Seq::new(counter, |i: int| 0u8))) as int % (size as int)
}

/// `v` is the index drawn from one of the hashes of `seed`.
pub open spec fn drawn_from(seed: Seq<u8>, size: nat, v: int) -> bool {
    exists|c: nat| v == #[trigger] drawn_index(seed, c, size)
}

/// The indices kept after trying the first `c` hashes of `seed`: the
/// index drawn from a hash is kept while fewer than `number` are kept and
/// no kept index has its residue modulo `reduced`.
pub open spec fn kept_indices(seed: Seq<u8>, size: nat, reduced: nat, number: nat, c: nat) -> Seq<usize>
    decreases c,
{
    if c == 0 {
        Seq::empty()
    } else {
        let prev = kept_indices(seed, size, reduced, number, (c - 1) as nat);
        let idx = drawn_index(seed, (c - 1) as nat, size);
        if prev.len() < number && !(exists|k: int| 0 <= k < prev.len() && (#[trigger] prev[k] as int) % (reduced as int) == idx % (reduced as int)) {
            prev.push(idx as usize)
        } else {
            prev
        }
    }
}

/// Once `number` indices are kept, later hashes keep no more.
proof fn lemma_kept_full(seed: Seq<u8>, size: nat, reduced: nat, number: nat, c: nat, d: nat)
    requires
        c <= d,
        kept_indices(seed, size, reduced, number, c).len() >= number,
    ensures
        kept_indices(seed, size, reduced, number, d) == kept_indices(seed, size, reduced, number, c),
    decreases d,
{
    if d > c {
        lemma_kept_full(seed, size, reduced, number, c, (d - 1) as nat);
    }
}

/// The first hash always yields a kept index.
proof fn lemma_kept_first(seed: Seq<u8>, size: nat, reduced: nat, number: nat, c: nat)
    requires
        c >= 1,
        number >= 1,
    ensures
        kept_indices(seed, size, reduced, number, c).len() >= 1,
    decreases c,
{
    if c > 1 {
        lemma_kept_first(seed, size, reduced, number, (c - 1) as nat);
    } else {
        assert(kept_indices(seed, size, reduced, number, 0).len() == 0);
    }
}

/// FRI protocol configuration and domain parameters.
#[derive(Debug)]
pub struct Fri {
    offset: FieldElement,
    omega: FieldElement,
    domain_length: usize,
    field: Field,
    expansion_factor: usize,
    num_colinearity_tests: usize,
}

impl Fri {
    /// The parameters fit together: elements of one field with `p > 1`,
    /// an invertible coset offset and generator, a positive expansion
    /// factor, and a number of tests whose quadruple fits in a `usize`.
    #[verifier::type_invariant]
    closed spec fn inv(self) -> bool {
        &&& self.field.p > 2
        &&& self.offset.field == self.field
        &&& self.omega.field == self.field
        &&& self.offset.wf()
        &&& self.omega.wf()
        &&& is_unit(self.offset.value as int, self.field.p as int)
        &&& is_unit(self.omega.value as int, self.field.p as int)
        &&& self.expansion_factor >= 1
        &&& 4 * self.num_colinearity_tests <= usize::MAX
    }

    /// The coset offset.
    pub closed spec fn offset_spec(&self) -> FieldElement {
        self.offset
    }

    /// The generator of the evaluation domain.
    pub closed spec fn omega_spec(&self) -> FieldElement {
        self.omega
    }

    /// The initial domain length.
    pub closed spec fn domain_length_spec(&self) -> nat {
        self.domain_length as nat
    }

    /// The field of the codewords.
    pub closed spec fn field_spec(&self) -> Field {
        self.field
    }

    /// The expansion factor.
    pub closed spec fn expansion_spec(&self) -> nat {
        self.expansion_factor as nat
    }

    /// The number of colinearity tests per round.
    pub closed spec fn tests_spec(&self) -> nat {
        self.num_colinearity_tests as nat
    }

    /// The number of folding rounds.
    pub open spec fn rounds_spec(&self) -> nat {
        rounds_for(self.domain_length_spec(), self.expansion_spec(), self.tests_spec())
    }

    /// Creates a new FRI instance over the coset `offset · <omega>`.
    pub fn new(
        offset: FieldElement,
        omega: FieldElement,
        initial_domain_length: usize,
        expansion_factor: usize,
        num_colinearity_tests: usize,
    ) -> (r: Fri)
        requires
            omega.field.p > 2,
            offset.field == omega.field,
            offset.wf(),
            omega.wf(),
            is_unit(offset.value as int, omega.field.p as int),
            is_unit(omega.value as int, omega.field.p as int),
            expansion_factor >= 1,
            4 * num_colinearity_tests <= usize::MAX,
        ensures
            r.offset_spec() == offset,
            r.omega_spec() == omega,
            r.domain_length_spec() == initial_domain_length,
            r.field_spec() == omega.field,
            r.expansion_spec() == expansion_factor,
            r.tests_spec() == num_colinearity_tests,
    {
        let field = omega.field;
        Fri {
            offset,
            omega,
            domain_length: initial_domain_length,
            field,
            expansion_factor,
            num_colinearity_tests,
        }
    }

    /// Returns the number of folding rounds.
    pub fn num_rounds(&self) -> (n: usize)
        ensures
            n == self.rounds_spec(),
    {
        proof {
            use_type_invariant(self);
        }
        let mut codeword_length = self.domain_length;
        let mut num_rounds: usize = 0;
        let limit = 4 * self.num_colinearity_tests;
        while codeword_length > self.expansion_factor && limit < codeword_length
            invariant
                limit == 4 * self.num_colinearity_tests,
                num_rounds + rounds_for(codeword_length as nat, self.expansion_factor as nat, self.num_colinearity_tests as nat)
                    == self.rounds_spec(),
                self.expansion_factor >= 1,
                num_rounds <= self.domain_length,
                codeword_length <= self.domain_length,
                num_rounds + codeword_length <= self.domain_length + 1,
            decreases codeword_length,
        {
            codeword_length = codeword_length / 2;
            num_rounds = num_rounds + 1;
        }
        num_rounds
    }

    /// Returns the FRI evaluation domain length.
    pub fn domain_length(&self) -> (n: usize)
        ensures
            n == self.domain_length_spec(),
    {
        self.domain_length
    }

    /// Returns the evaluation domain `offset · omega^i` for `i` below the
    /// domain length.
    pub fn eval_domain(&self) -> (domain: Vec<FieldElement>)
        ensures
            domain@.len() == self.domain_length_spec(),
            forall|i: int|
                0 <= i < domain@.len() ==> #[trigger] domain@[i] == self.field_spec().element_of(
                    self.offset_spec().value * pow(self.omega_spec().value as int, i as nat),
                ),
    {
        proof {
            use_type_invariant(self);
        }
        let mut domain: Vec<FieldElement> = Vec::new();
        let mut index: usize = 0;
        while index < self.domain_length
            invariant
                self.field.p > 2,
                self.offset.field == self.field,
                self.omega.field == self.field,
                index <= self.domain_length,
                domain@.len() == index,
                forall|i: int|
                    0 <= i < index ==> #[trigger] domain@[i] == self.field.element_of(
                        self.offset.value * pow(self.omega.value as int, i as nat),
                    ),
            decreases self.domain_length - index,
        {
            let power = self.omega.pow(index as u64);
            let point = self.offset * power;
            proof {
                vstd::arithmetic::div_mod::lemma_mul_mod_noop_right(
                    self.offset.value as int,
                    pow(self.omega.value as int, index as nat),
                    self.field.p as int,
                );
            }
            domain.push(point);
            index = index + 1;
        }
        domain
    }

    /// Samples a single index from a byte array: the big-endian value of
    /// its last machine word, modulo `size`.
    pub fn sample_index(byte_array: &[u8], size: usize) -> (index: usize)
        requires
            size > 0,
        ensures
            index == word_of(byte_array@) % size,
    {
        let mut acc: usize = 0;
        let mut i: usize = 0;
        while i < byte_array.len()
            invariant
                i <= byte_array@.len(),
                acc == word_of(byte_array@.take(i as int)),
            decreases byte_array@.len() - i,
        {
            proof {
                assert(byte_array@.take(i + 1).drop_last() =~= byte_array@.take(i as int));
            }
            acc = (acc << 8) ^ (byte_array[i] as usize);
            i = i + 1;
        }
        proof {
            assert(byte_array@.take(i as int) =~= byte_array@);
        }
        acc % size
    }

    /// Samples `number` indices below `size` whose residues modulo
    /// `reduced_size` are distinct, from the hashes of `seed` followed by
    /// growing runs of zero bytes; the run length is bounded by
    /// `usize::MAX`, after which fewer indices are returned.
    pub fn sample_indices(&self, seed: &[u8], size: usize, reduced_size: usize, number: usize) -> (indices: Vec<usize>)
        requires
            size > 0,
            reduced_size > 0,
            number <= reduced_size,
        ensures
            indices@.len() <= number,
            forall|i: int| 0 <= i < indices@.len() ==> (#[trigger] indices@[i]) < size,
            forall|i: int, j: int|
                0 <= i < indices@.len() && 0 <= j < indices@.len() && i != j ==> indices@[i] % reduced_size
                    != indices@[j] % reduced_size,
            forall|i: int| 0 <= i < indices@.len() ==> drawn_from(seed@, size as nat, #[trigger] indices@[i] as int),
            indices@ == kept_indices(seed@, size as nat, reduced_size as nat, number as nat, usize::MAX as nat),
            number >= 1 ==> indices@.len() >= 1,
    {
        let mut indices: Vec<usize> = Vec::new();
        let mut reduced_indices: Vec<usize> = Vec::new();
        let mut counter: usize = 0;
        while indices.len() < number && counter < usize::MAX
            invariant
                size > 0,
                reduced_size > 0,
                indices@.len() <= number,
                reduced_indices@.len() == indices@.len(),
                forall|i: int| 0 <= i < indices@.len() ==> (#[trigger] indices@[i]) < size,
                forall|i: int|
                    0 <= i < indices@.len() ==> #[trigger] reduced_indices@[i] == indices@[i] % reduced_size,
                forall|i: int, j: int|
                    0 <= i < indices@.len() && 0 <= j < indices@.len() && i != j ==> indices@[i]
                        % reduced_size != indices@[j] % reduced_size,
                forall|i: int| 0 <= i < indices@.len() ==> drawn_from(seed@, size as nat, #[trigger] indices@[i] as int),
                indices@ == kept_indices(seed@, size as nat, reduced_size as nat, number as nat, counter as nat),
            decreases usize::MAX - counter,
        {
            let zeros = zero_bytes(counter);
            let input = concat_bytes(seed, zeros.as_slice());
            let digest = blake2b512(input.as_slice());
            let index = Self::sample_index(digest.as_slice(), size);
            let reduced_index = index % reduced_size;
            let ghost c = counter as nat;
            proof {
                assert(index == drawn_index(seed@, c, size as nat));
            }
            counter = counter + 1;
            let mut seen = false;
            let mut j: usize = 0;
            while j < reduced_indices.len()
                invariant
                    j <= reduced_indices@.len(),
                    seen == exists|k: int| 0 <= k < j && reduced_indices@[k] == reduced_index,
                decreases reduced_indices@.len() - j,
            {
                if reduced_indices[j] == reduced_index {
                    seen = true;
                }
                j = j + 1;
            }
            proof {
                let prev = kept_indices(seed@, size as nat, reduced_size as nat, number as nat, c);
                assert(prev == indices@);
                if seen {
                    let k = choose|k: int| 0 <= k < j && reduced_indices@[k] == reduced_index;
                    assert((prev[k] as int) % (reduced_size as int) == (index as int) % (reduced_size as int));
                } else {
                    assert forall|k: int| 0 <= k < prev.len() implies !((#[trigger] prev[k] as int) % (reduced_size as int) == (index as int)
                        % (reduced_size as int)) by {
                        assert(reduced_indices@[k] == indices@[k] % reduced_size);
                    }
                }
            }
            if !seen {
                let ghost old_indices = indices@;
                indices.push(index);
                reduced_indices.push(reduced_index);
                proof {
                    assert forall|i: int| 0 <= i < indices@.len() implies drawn_from(seed@, size as nat, #[trigger] indices@[i] as int) by {
                        if i < old_indices.len() {
                            assert(indices@[i] == old_indices[i]);
                        } else {
                            assert(indices@[i] == drawn_index(seed@, c, size as nat));
                        }
                    }
                    assert forall|i: int, k: int|
                        0 <= i < indices@.len() && 0 <= k < indices@.len() && i != k implies indices@[i]
                        % reduced_size != indices@[k] % reduced_size by {
                        if i < old_indices.len() && k < old_indices.len() {
                        } else if i < old_indices.len() {
                            assert(reduced_indices@[i] == indices@[i] % reduced_size);
                        } else {
                            assert(reduced_indices@[k] == indices@[k] % reduced_size);
                        }
                    }
                }
            }
        }
        proof {
            if indices@.len() >= number {
                lemma_kept_full(seed@, size as nat, reduced_size as nat, number as nat, counter as nat, usize::MAX as nat);
            }
            if number >= 1 {
                lemma_kept_first(seed@, size as nat, reduced_size as nat, number as nat, usize::MAX as nat);
            }
        }
        indices
    }
}

/// The Merkle root of a codeword's leaves.
pub(crate) fn merkle_commit_codeword(codeword: &[FieldElement]) -> (root: Vec<u8>)
    requires
        is_pow2(codeword@.len() as int),
    ensures
        root@ == codeword_root(codeword@),
{
    let leaves = codeword_leaf_bytes(codeword);
    Merkle::commit(leaves.as_slice())
}

/// The authentication path of a codeword position.
pub(crate) fn merkle_open_codeword(index: usize, codeword: &[FieldElement]) -> (path: Vec<Vec<u8>>)
    requires
        is_pow2(codeword@.len() as int),
        codeword@.len() >= 2,
        index < codeword@.len(),
    ensures
        byte_views(path@) == merkle_path(index as int, hashed_leaves(codeword_leaves(codeword@))),
{
    let leaves = codeword_leaf_bytes(codeword);
    Merkle::open(index, leaves.as_slice())
}

/// The decimal bytes of each element of a codeword.
fn codeword_leaf_bytes(codeword: &[FieldElement]) -> (leaves: Vec<Vec<u8>>)
    ensures
        leaves@.len() == codeword@.len(),
        byte_views(leaves@) == codeword_leaves(codeword@),
{
    let mut leaves: Vec<Vec<u8>> = Vec::new();
    let mut i: usize = 0;
    while i < codeword.len()
        invariant
            i <= codeword@.len(),
            leaves@.len() == i,
            byte_views(leaves@) == codeword_leaves(codeword@).take(i as int),
        decreases codeword@.len() - i,
    {
        let ghost before = leaves@;
        leaves.push(codeword[i].to_bytes());
        i = i + 1;
        proof {
            assert(byte_views(leaves@) =~= byte_views(before).push(decimal_digits(codeword@[i - 1].value as nat)));
            assert(byte_views(leaves@) =~= codeword_leaves(codeword@).take(i as int));
        }
    }
    proof {
        assert(codeword_leaves(codeword@).take(i as int) =~= codeword_leaves(codeword@));
    }
    leaves
}

/// The challenge the prover draws after the first `n` objects of the
/// transcript: the first 32 bytes of SHAKE256 of the prefix and those
/// objects, read as a number and reduced into the field.
pub open spec fn fri_challenge(f: Field, prefix: Seq<u8>, objects: Seq<FriProofItem>, n: int) -> FieldElement {
    f.element_of(bytes_to_nat(shake256_output(challenge_input(prefix, objects, n), 32)) as int)
}

/// The domain point of position `i` after `k` foldings of the coset
/// `offset · <omega>`.
pub open spec fn fold_point(offset: int, omega: int, k: nat, i: int) -> int {
    pow(offset, pow2(k)) * pow(omega, (pow2(k) * i) as nat)
}

/// The object is the Merkle root of codeword `c`.
pub open spec fn is_root_of(item: FriProofItem, c: Seq<FieldElement>) -> bool {
    item matches FriProofItem::MerkleRoot(root) && root@ == codeword_root(c)
}

/// The object carries codeword `c` in the clear.
pub open spec fn is_last_codeword(item: FriProofItem, c: Seq<FieldElement>) -> bool {
    item matches FriProofItem::LastCodeword(w) && w@ == c
}

/// `next` is the fold of `c` with challenge `alpha` on the coset reached
/// after `k` foldings.
pub open spec fn folded(c: Seq<FieldElement>, next: Seq<FieldElement>, alpha: FieldElement, offset: int, omega: int, k: nat, p: int) -> bool {
    &&& next.len() == c.len() / 2
    &&& forall|i: int| 0 <= i < next.len() ==> (#[trigger] next[i]).value == fold_value(c, i, alpha.value as int, fold_point(offset, omega, k, i), p)
}

/// A fold step stays within the same number of remaining rounds.
proof fn lemma_rounds_step(len: nat, expansion: nat, tests: nat)
    requires
        rounds_for(len, expansion, tests) >= 1,
        expansion >= 1,
        is_pow2(len as int),
    ensures
        len >= 2,
        rounds_for(len / 2, expansion, tests) == rounds_for(len, expansion, tests) - 1,
        is_pow2((len / 2) as int),
        4 * tests < len,
{
    reveal(is_pow2);
    lemma_pow2_lt_half(1, len as int);
}

/// Fold values only depend on the domain point modulo `p`.
proof fn lemma_fold_point_congruent(c: Seq<FieldElement>, i: int, alpha: int, x: int, y: int, p: int)
    requires
        p > 0,
        x % p == y % p,
    ensures
        fold_value(c, i, alpha, x, p) == fold_value(c, i, alpha, y, p),
{
}

/// The fold computed on the coset `offset_k · <omega_k>`, whose
/// generators are the residues of the `2^k`-th powers, is the fold at
/// the points [`fold_point`].
proof fn lemma_fold_on_coset(
    cur: Seq<FieldElement>,
    next: Seq<FieldElement>,
    alpha: FieldElement,
    offset_k: FieldElement,
    omega_k: FieldElement,
    off: int,
    om: int,
    k: nat,
    p: int,
)
    requires
        p > 0,
        offset_k.value == pow(off, pow2(k)) % p,
        omega_k.value == pow(om, pow2(k)) % p,
        next.len() == cur.len() / 2,
        forall|i: int|
            0 <= i < next.len() ==> (#[trigger] next[i]).value == fold_value(
                cur,
                i,
                alpha.value as int,
                offset_k.value * pow(omega_k.value as int, i as nat),
                p,
            ),
    ensures
        folded(cur, next, alpha, off, om, k, p),
{
    assert forall|i: int| 0 <= i < next.len() implies (#[trigger] next[i]).value == fold_value(
        cur,
        i,
        alpha.value as int,
        fold_point(off, om, k, i),
        p,
    ) by {
        let ow = pow(om, pow2(k));
        let x = offset_k.value * pow(omega_k.value as int, i as nat);
        lemma_mod_twice(pow(off, pow2(k)), p);
        lemma_pow_mod_noop(ow, i as nat, p);
        lemma_pow_multiplies(om, pow2(k), i as nat);
        crate::polynomial::multivariate_eval::lemma_mul_congruent(
            offset_k.value as int,
            pow(omega_k.value as int, i as nat),
            pow(off, pow2(k)),
            pow(ow, i as nat),
            p,
        );
        lemma_mod_twice(pow(off, pow2(k)), p);
        lemma_fold_point_congruent(cur, i, alpha.value as int, x, fold_point(off, om, k, i), p);
    }
}

/// Squaring the residue of the `2^k`-th power gives the residue of the
/// `2^(k+1)`-th power.
proof fn lemma_square_power(x: int, k: nat, p: int)
    requires
        p > 0,
    ensures
        pow(pow(x, pow2(k)) % p, 2) % p == pow(x, pow2(k + 1)) % p,
{
    lemma_pow_mod_noop(pow(x, pow2(k)), 2, p);
    lemma_pow_multiplies(x, pow2(k), 2);
    lemma_pow2_unfold(k + 1);
    assert(pow2(k) * 2 == pow2(k + 1));
}

/// A copy of a codeword.
fn copy_elements(c: &Vec<FieldElement>) -> (r: Vec<FieldElement>)
    ensures
        r@ == c@,
{
    let mut out: Vec<FieldElement> = Vec::new();
    let mut i: usize = 0;
    while i < c.len()
        invariant
            i <= c@.len(),
            out@ == c@.take(i as int),
        decreases c@.len() - i,
    {
        out.push(c[i]);
        i = i + 1;
        proof {
            assert(out@ =~= c@.take(i as int));
        }
    }
    proof {
        assert(c@.take(i as int) =~= c@);
    }
    out
}

/// The layers computed so far: each in the field, of the halved length,
/// of power-of-two length.
#[verifier::opaque]
pub open spec fn layers_ok(cws: Seq<Seq<FieldElement>>, d: nat, f: Field) -> bool {
    forall|k: int|
        0 <= k < cws.len() ==> codeword_in_field(#[trigger] cws[k], f) && cws[k].len() == d / pow2(k as nat)
            && is_pow2(cws[k].len() as int)
}

/// Layer `k` has `total - k` folding rounds left.
#[verifier::opaque]
pub open spec fn rounds_left(cws: Seq<Seq<FieldElement>>, total: nat, expansion: nat, tests: nat) -> bool {
    forall|k: int| 0 <= k < cws.len() ==> rounds_for((#[trigger] cws[k]).len(), expansion, tests) == total - k
}

/// The transcript holds, after position `base`, the roots of the first
/// `n` layers, and each of these layers that has a successor folds into
/// it with the challenge drawn just after its root.
#[verifier::opaque]
pub open spec fn transcript_ok(
    objs: Seq<FriProofItem>,
    base: int,
    prefix: Seq<u8>,
    cws: Seq<Seq<FieldElement>>,
    n: int,
    f: Field,
    off: int,
    om: int,
) -> bool {
    &&& base + n <= objs.len()
    &&& n <= cws.len()
    &&& forall|k: int| 0 <= k < n ==> is_root_of(objs[base + k], #[trigger] cws[k])
    &&& forall|k: int|
        0 <= k < n && k + 1 < cws.len() ==> folded(
            #[trigger] cws[k],
            cws[k + 1],
            fri_challenge(f, prefix, objs, base + k + 1),
            off,
            om,
            k as nat,
            f.p as int,
        )
}

/// From `base` on, the transcript commits to the layers `cws`, the first
/// of which is `codeword`: one layer per round (at least one), each in the
/// field and half as long as the one before; their roots, each folding
/// into the next with the challenge drawn after its root; and the last
/// layer in the clear.
pub open spec fn commits_layers(
    objs: Seq<FriProofItem>,
    base: int,
    prefix: Seq<u8>,
    codeword: Seq<FieldElement>,
    cws: Seq<Seq<FieldElement>>,
    rounds: nat,
    f: Field,
    off: int,
    om: int,
) -> bool {
    &&& cws.len() > 0
    &&& cws.len() == (if rounds == 0 { 1 } else { rounds })
    &&& layers_ok(cws, codeword.len(), f)
    &&& cws[0] == codeword
    &&& transcript_ok(objs, base, prefix, cws, rounds as int, f, off, om)
    &&& is_last_codeword(objs[base + rounds], cws.last())
}

/// Appending objects keeps what the transcript already showed.
proof fn lemma_transcript_extend(
    objs: Seq<FriProofItem>,
    more: Seq<FriProofItem>,
    base: int,
    prefix: Seq<u8>,
    cws: Seq<Seq<FieldElement>>,
    n: int,
    f: Field,
    off: int,
    om: int,
)
    requires
        0 <= base,
        transcript_ok(objs, base, prefix, cws, n, f, off, om),
    ensures
        transcript_ok(objs + more, base, prefix, cws, n, f, off, om),
{
    reveal(transcript_ok);
    let all = objs + more;
    assert forall|k: int| 0 <= k < n && k + 1 < cws.len() implies folded(
        #[trigger] cws[k],
        cws[k + 1],
        fri_challenge(f, prefix, all, base + k + 1),
        off,
        om,
        k as nat,
        f.p as int,
    ) by {
        assert(all.take(base + k + 1) =~= objs.take(base + k + 1));
    }
    assert forall|k: int| 0 <= k < n implies is_root_of(all[base + k], #[trigger] cws[k]) by {
        assert(all[base + k] == objs[base + k]);
    }
}

/// One more layer: its root is the next object and it folds into the
/// following layer with the challenge drawn after that root.
proof fn lemma_transcript_step(
    objs: Seq<FriProofItem>,
    base: int,
    prefix: Seq<u8>,
    cws: Seq<Seq<FieldElement>>,
    n: int,
    next: Seq<FieldElement>,
    f: Field,
    off: int,
    om: int,
)
    requires
        0 <= base,
        0 <= n,
        cws.len() == n + 1,
        transcript_ok(objs, base, prefix, cws, n, f, off, om),
        objs.len() == base + n + 1,
        is_root_of(objs[base + n], cws[n]),
        folded(cws[n], next, fri_challenge(f, prefix, objs, base + n + 1), off, om, n as nat, f.p as int),
    ensures
        transcript_ok(objs, base, prefix, cws.push(next), n + 1, f, off, om),
{
    reveal(transcript_ok);
    let c2 = cws.push(next);
    assert forall|k: int| 0 <= k < n + 1 implies is_root_of(objs[base + k], #[trigger] c2[k]) by {
        assert(c2[k] == cws[k]);
    }
    assert forall|k: int| 0 <= k < n + 1 && k + 1 < c2.len() implies folded(
        #[trigger] c2[k],
        c2[k + 1],
        fri_challenge(f, prefix, objs, base + k + 1),
        off,
        om,
        k as nat,
        f.p as int,
    ) by {
        assert(c2[k] == cws[k]);
        if k + 1 < n + 1 {
            assert(c2[k + 1] == cws[k + 1]);
        }
    }
}

/// One more layer of the right shape.
proof fn lemma_layers_push(cws: Seq<Seq<FieldElement>>, next: Seq<FieldElement>, d: nat, f: Field)
    requires
        layers_ok(cws, d, f),
        cws.len() > 0,
        codeword_in_field(next, f),
        next.len() == cws.last().len() / 2,
        is_pow2(next.len() as int),
    ensures
        layers_ok(cws.push(next), d, f),
{
    reveal(layers_ok);
    let k = cws.len() as nat;
    let c2 = cws.push(next);
    assert(cws.last() == cws[k - 1]);
    lemma_pow2_unfold(k);
    lemma_pow2_pos((k - 1) as nat);
    lemma_div_denominator(d as int, pow2((k - 1) as nat) as int, 2);
    assert(pow2((k - 1) as nat) * 2 == pow2(k));
    assert forall|j: int| 0 <= j < c2.len() implies codeword_in_field(#[trigger] c2[j], f) && c2[j].len() == d
        / pow2(j as nat) && is_pow2(c2[j].len() as int) by {
        if j < k {
            assert(c2[j] == cws[j]);
        }
    }
}

impl Fri {
    /// Commits all FRI layers and returns the intermediate codewords: the
    /// Merkle root of every layer is written to the transcript, each layer
    /// but the last is folded with a challenge drawn from the transcript,
    /// and the last layer is written in the clear.
    #[verifier::rlimit(60)]
    pub fn commit(&self, codeword: Vec<FieldElement>, proof_stream: &mut FriProofStream) -> (codewords: Vec<Vec<FieldElement>>)
        requires
            codeword@.len() == self.domain_length_spec(),
            is_pow2(codeword@.len() as int),
            codeword_in_field(codeword@, self.field_spec()),
        ensures
            codewords@.len() == (if self.rounds_spec() == 0 { 1 } else { self.rounds_spec() }),
            codewords@[0]@ == codeword@,
            layers_ok(Seq::new(codewords@.len(), |k: int| codewords@[k]@), codeword@.len(), self.field_spec()),
            rounds_left(
                Seq::new(codewords@.len(), |k: int| codewords@[k]@),
                self.rounds_spec(),
                self.expansion_spec(),
                self.tests_spec(),
            ),
            final(proof_stream).objects_view().len() == old(proof_stream).objects_view().len() + self.rounds_spec() + 1,
            final(proof_stream).objects_view().take(old(proof_stream).objects_view().len() as int) == old(proof_stream).objects_view(),
            final(proof_stream).prefix_view() == old(proof_stream).prefix_view(),
            final(proof_stream).read_view() == old(proof_stream).read_view(),
            transcript_ok(
                final(proof_stream).objects_view(),
                old(proof_stream).objects_view().len() as int,
                final(proof_stream).prefix_view(),
                Seq::new(codewords@.len(), |k: int| codewords@[k]@),
                self.rounds_spec() as int,
                self.field_spec(),
                self.offset_spec().value as int,
                self.omega_spec().value as int,
            ),
            is_last_codeword(
                final(proof_stream).objects_view()[(old(proof_stream).objects_view().len() + self.rounds_spec()) as int],
                codewords@.last()@,
            ),
    {
        proof {
            use_type_invariant(self);
        }
        let ghost f = self.field;
        let ghost p = f.p as int;
        let ghost off = self.offset.value as int;
        let ghost om = self.omega.value as int;
        let ghost base = proof_stream.objects_view().len() as int;
        let ghost start = proof_stream.objects_view();
        let ghost prefix = proof_stream.prefix_view();
        let ghost read = proof_stream.read_view();
        let num_rounds = self.num_rounds();
        let mut omega = self.omega;
        let mut offset = self.offset;
        let mut codewords: Vec<Vec<FieldElement>> = Vec::new();
        let mut codeword = codeword;
        let ghost input = codeword@;
        let ghost mut cws: Seq<Seq<FieldElement>> = seq![codeword@];
        let ghost d = codeword@.len();
        let mut round: usize = 0;
        proof {
            lemma_pow2_pos(0);
            assert(pow2(0) == 1) by {
                lemma2_to64();
            }
            lemma_pow1(off);
            lemma_pow1(om);
            lemma_small_mod(off as nat, p as nat);
            lemma_small_mod(om as nat, p as nat);
            assert(cws[0].len() == d / pow2(0));
            reveal(layers_ok);
            reveal(transcript_ok);
            reveal(rounds_left);
            assert(proof_stream.objects_view().take(base) =~= start);
        }
        while round + 1 < num_rounds
            invariant
                p == f.p,
                p > 2,
                f == self.field,
                self.offset.field == f && self.omega.field == f,
                is_unit(off, p),
                is_unit(om, p),
                off == self.offset.value,
                om == self.omega.value,
                self.expansion_factor >= 1,
                num_rounds == self.rounds_spec(),
                round == 0 || round < num_rounds,
                cws.len() == round + 1,
                cws[round as int] == codeword@,
                codewords@.len() == round,
                forall|k: int| 0 <= k < round ==> (#[trigger] codewords@[k])@ == cws[k],
                cws[0] == input,
                d == input.len(),
                layers_ok(cws, d, f),
                rounds_left(cws, num_rounds as nat, self.expansion_factor as nat, self.num_colinearity_tests as nat),
                codeword_in_field(codeword@, f),
                is_pow2(codeword@.len() as int),
                rounds_for(codeword@.len() as nat, self.expansion_factor as nat, self.num_colinearity_tests as nat) == num_rounds - round,
                omega.wf() && omega.field == f && omega.value == pow(om, pow2(round as nat)) % p,
                offset.wf() && offset.field == f && offset.value == pow(off, pow2(round as nat)) % p,
                0 <= base,
                start.len() == base,
                proof_stream.objects_view().len() == base + round,
                proof_stream.objects_view().take(base) == start,
                proof_stream.prefix_view() == prefix,
                proof_stream.read_view() == read,
                transcript_ok(proof_stream.objects_view(), base, prefix, cws, round as int, f, off, om),
            decreases num_rounds - round,
        {
            let root = merkle_commit_codeword(codeword.as_slice());
            let ghost before = proof_stream.objects_view();
            proof_stream.push(FriProofItem::MerkleRoot(root));
            let challenge = proof_stream.prover_fiat_shamir(32);
            let alpha = self.field.sample(challenge.as_slice());
            codewords.push(copy_elements(&codeword));
            proof {
                lemma_rounds_step(codeword@.len() as nat, self.expansion_factor as nat, self.num_colinearity_tests as nat);
                lemma_unit_pow(off, pow2(round as nat), p);
                lemma_unit_pow(om, pow2(round as nat), p);
                lemma_unit_mod(pow(off, pow2(round as nat)), p);
                lemma_unit_mod(pow(om, pow2(round as nat)), p);
            }
            let next = fold_codeword(&codeword, alpha, offset, omega, self.field);
            let ghost cur = codeword@;
            let ghost k = round as nat;
            proof {
                let objs = proof_stream.objects_view();
                assert(objs =~= before + seq![objs.last()]);
                lemma_transcript_extend(before, seq![objs.last()], base, prefix, cws, round as int, f, off, om);
                assert(objs.take(base) =~= before.take(base));
                assert(objs.take(objs.len() as int) =~= objs);
                assert(alpha == fri_challenge(f, prefix, objs, base + round + 1));
                lemma_fold_on_coset(cur, next@, alpha, offset, omega, off, om, k, p);
                lemma_transcript_step(objs, base, prefix, cws, round as int, next@, f, off, om);
                lemma_layers_push(cws, next@, d, f);
                reveal(rounds_left);
                let c2 = cws.push(next@);
                assert forall|j: int| 0 <= j < c2.len() implies rounds_for((#[trigger] c2[j]).len(), self.expansion_factor as nat, self.num_colinearity_tests as nat) == num_rounds - j by {
                    if j < cws.len() {
                        assert(c2[j] == cws[j]);
                    }
                }
                cws = c2;
            }
            codeword = next;
            omega = omega.pow(2);
            offset = offset.pow(2);
            proof {
                lemma_square_power(om, k, p);
                lemma_square_power(off, k, p);
            }
            round = round + 1;
        }
        let ghost loop_objs = proof_stream.objects_view();
        if num_rounds > 0 {
            let root = merkle_commit_codeword(codeword.as_slice());
            proof_stream.push(FriProofItem::MerkleRoot(root));
        }
        let ghost mid_objs = proof_stream.objects_view();
        let last = copy_elements(&codeword);
        proof_stream.push(FriProofItem::LastCodeword(last));
        codewords.push(codeword);
        proof {
            let objs = proof_stream.objects_view();
            assert(objs.take(base) =~= start);
            let views = Seq::new(codewords@.len(), |k: int| codewords@[k]@);
            assert(views =~= cws);
            if num_rounds > 0 {
                assert(mid_objs =~= loop_objs + seq![mid_objs.last()]);
                lemma_transcript_extend(loop_objs, seq![mid_objs.last()], base, prefix, cws, round as int, f, off, om);
                reveal(transcript_ok);
                assert(transcript_ok(mid_objs, base, prefix, cws, round + 1, f, off, om)) by {
                    assert forall|j: int| 0 <= j < round + 1 implies is_root_of(mid_objs[base + j], #[trigger] cws[j]) by {
                        if j < round {
                            assert(mid_objs[base + j] == loop_objs[base + j]);
                        }
                    }
                }
            }
            assert(objs =~= mid_objs + seq![objs.last()]);
            lemma_transcript_extend(mid_objs, seq![objs.last()], base, prefix, cws, num_rounds as int, f, off, om);
        }
        codewords
    }
}

/// The object carries the three query values `a`, `b`, `c`.
pub open spec fn is_query_values(item: FriProofItem, a: FieldElement, b: FieldElement, c: FieldElement) -> bool {
    item matches FriProofItem::QueryValues(x, y, z) && x == a && y == b && z == c
}

/// The object is the authentication path of position `index` of codeword `c`.
pub open spec fn is_path_of(item: FriProofItem, index: int, c: Seq<FieldElement>) -> bool {
    item matches FriProofItem::AuthenticationPath(path) && byte_views(path@) == merkle_path(
        index,
        hashed_leaves(codeword_leaves(c)),
    )
}

/// Each index reduced modulo `h`.
pub open spec fn reduced_mod(s: Seq<usize>, h: int) -> Seq<usize> {
    s.map_values(|x: usize| (x as int % h) as usize)
}

/// The indices queried in round `k`: the top-level indices reduced modulo
/// half the length of each layer up to layer `k`.
pub open spec fn round_indices(top: Seq<usize>, cws: Seq<Seq<FieldElement>>, k: nat) -> Seq<usize>
    decreases k,
{
    if k == 0 {
        reduced_mod(top, (cws[0].len() / 2) as int)
    } else {
        reduced_mod(round_indices(top, cws, (k - 1) as nat), (cws[k as int].len() / 2) as int)
    }
}

/// The objects at `at_values` and from `at_paths` on open the query at
/// position `c` of layer `cur` and its successor `next`: the values at
/// `c`, at `c` plus half the layer and at `c` in the next layer, then their
/// three authentication paths.
pub open spec fn query_written(
    objs: Seq<FriProofItem>,
    at_values: int,
    at_paths: int,
    c: int,
    cur: Seq<FieldElement>,
    next: Seq<FieldElement>,
) -> bool {
    let half = (cur.len() / 2) as int;
    &&& is_query_values(objs[at_values], cur[c], cur[c + half], next[c])
    &&& is_path_of(objs[at_paths], c, cur)
    &&& is_path_of(objs[at_paths + 1], c + half, cur)
    &&& is_path_of(objs[at_paths + 2], c, next)
}

/// From `base` on, after the commitment, the transcript opens every
/// sample of every round but the last: the values and then the paths of
/// round `rd` start at `round_start(base, rounds, tests, rd)`.
pub open spec fn queries_written(
    objs: Seq<FriProofItem>,
    base: int,
    cws: Seq<Seq<FieldElement>>,
    top: Seq<usize>,
    rounds: nat,
    tests: nat,
) -> bool {
    forall|rd: int, s: int|
        0 <= rd < rounds - 1 && 0 <= s < tests ==> #[trigger] query_written(
            objs,
            round_start(base, rounds, tests, rd) + s,
            round_start(base, rounds, tests, rd) + tests + 3 * s,
            round_indices(top, cws, rd as nat)[s] as int,
            cws[rd],
            cws[rd + 1],
        )
}

/// Appending objects keeps a query that was already written.
proof fn lemma_query_kept(
    objs: Seq<FriProofItem>,
    all: Seq<FriProofItem>,
    at_values: int,
    at_paths: int,
    c: int,
    cur: Seq<FieldElement>,
    next: Seq<FieldElement>,
)
    requires
        query_written(objs, at_values, at_paths, c, cur, next),
        all.take(objs.len() as int) == objs,
        all.len() >= objs.len(),
        0 <= at_values < objs.len(),
        0 <= at_paths,
        at_paths + 2 < objs.len(),
    ensures
        query_written(all, at_values, at_paths, c, cur, next),
{
    let pre = all.take(objs.len() as int);
    assert(pre[at_values] == all[at_values]);
    assert(pre[at_paths] == all[at_paths]);
    assert(pre[at_paths + 1] == all[at_paths + 1]);
    assert(pre[at_paths + 2] == all[at_paths + 2]);
}

impl Fri {
    /// Appends the query openings of one folding round: for each of the
    /// first `t` indices `c`, the values at `c` and `c + n/2` of the
    /// current codeword and at `c` of the next, then their authentication
    /// paths.  Returns the indices `c` followed by the indices `c + n/2`.
    pub fn query(
        &self,
        current_codeword: &[FieldElement],
        next_codeword: &[FieldElement],
        c_indices: &[usize],
        proof_stream: &mut FriProofStream,
    ) -> (indices: Vec<usize>)
        requires
            is_pow2(current_codeword@.len() as int),
            current_codeword@.len() >= 2,
            is_pow2(next_codeword@.len() as int),
            next_codeword@.len() >= 2,
            c_indices@.len() >= self.tests_spec(),
            forall|i: int| 0 <= i < c_indices@.len() ==> (#[trigger] c_indices@[i]) + current_codeword@.len() / 2 <= usize::MAX,
            forall|s: int|
                0 <= s < self.tests_spec() ==> (#[trigger] c_indices@[s]) < current_codeword@.len() / 2
                    && c_indices@[s] < next_codeword@.len(),
        ensures
            indices@.len() == 2 * c_indices@.len(),
            forall|i: int| 0 <= i < c_indices@.len() ==> #[trigger] indices@[i] == c_indices@[i],
            forall|i: int|
                0 <= i < c_indices@.len() ==> #[trigger] indices@[c_indices@.len() + i] == c_indices@[i]
                    + current_codeword@.len() / 2,
            final(proof_stream).objects_view().len() == old(proof_stream).objects_view().len() + 4
                * self.tests_spec(),
            final(proof_stream).objects_view().take(old(proof_stream).objects_view().len() as int)
                == old(proof_stream).objects_view(),
            final(proof_stream).prefix_view() == old(proof_stream).prefix_view(),
            final(proof_stream).read_view() == old(proof_stream).read_view(),
            forall|s: int|
                0 <= s < self.tests_spec() ==> is_query_values(
                    final(proof_stream).objects_view()[old(proof_stream).objects_view().len() + s],
                    current_codeword@[#[trigger] c_indices@[s] as int],
                    current_codeword@[c_indices@[s] + current_codeword@.len() / 2],
                    next_codeword@[c_indices@[s] as int],
                ),
            forall|s: int|
                0 <= s < self.tests_spec() ==> {
                    let at = old(proof_stream).objects_view().len() + self.tests_spec() + 3 * s;
                    &&& is_path_of(
                        final(proof_stream).objects_view()[at],
                        #[trigger] c_indices@[s] as int,
                        current_codeword@,
                    )
                    &&& is_path_of(
                        final(proof_stream).objects_view()[at + 1],
                        c_indices@[s] + current_codeword@.len() / 2,
                        current_codeword@,
                    )
                    &&& is_path_of(final(proof_stream).objects_view()[at + 2], c_indices@[s] as int, next_codeword@)
                },
    {
        let ghost base = proof_stream.objects_view().len() as int;
        let ghost start = proof_stream.objects_view();
        let t = self.num_colinearity_tests;
        let half = current_codeword.len() / 2;
        let mut a_indices: Vec<usize> = Vec::new();
        let mut b_indices: Vec<usize> = Vec::new();
        let mut i: usize = 0;
        while i < c_indices.len()
            invariant
                half == current_codeword@.len() / 2,
                forall|j: int| 0 <= j < c_indices@.len() ==> (#[trigger] c_indices@[j]) + half <= usize::MAX,
                i <= c_indices@.len(),
                a_indices@ == c_indices@.take(i as int),
                b_indices@.len() == i,
                forall|j: int| 0 <= j < i ==> #[trigger] b_indices@[j] == c_indices@[j] + half,
            decreases c_indices@.len() - i,
        {
            a_indices.push(c_indices[i]);
            b_indices.push(c_indices[i] + half);
            i = i + 1;
            proof {
                assert(a_indices@ =~= c_indices@.take(i as int));
            }
        }
        proof {
            assert(a_indices@ =~= c_indices@);
        }
        let mut sample: usize = 0;
        while sample < t
            invariant
                t == self.tests_spec(),
                half == current_codeword@.len() / 2,
                c_indices@.len() >= t,
                a_indices@ == c_indices@,
                b_indices@.len() == c_indices@.len(),
                forall|j: int| 0 <= j < c_indices@.len() ==> #[trigger] b_indices@[j] == c_indices@[j] + half,
                forall|s: int|
                    0 <= s < t ==> (#[trigger] c_indices@[s]) < half && c_indices@[s] < next_codeword@.len(),
                current_codeword@.len() >= 2,
                sample <= t,
                start.len() == base,
                proof_stream.objects_view().len() == base + sample,
                proof_stream.objects_view().take(base) == start,
                proof_stream.prefix_view() == old(proof_stream).prefix_view(),
                proof_stream.read_view() == old(proof_stream).read_view(),
                forall|s: int|
                    0 <= s < sample ==> is_query_values(
                        proof_stream.objects_view()[base + s],
                        current_codeword@[#[trigger] c_indices@[s] as int],
                        current_codeword@[c_indices@[s] + half],
                        next_codeword@[c_indices@[s] as int],
                    ),
            decreases t - sample,
        {
            let ghost before = proof_stream.objects_view();
            let a = current_codeword[a_indices[sample]];
            let b = current_codeword[b_indices[sample]];
            let c = next_codeword[c_indices[sample]];
            proof_stream.push(FriProofItem::QueryValues(a, b, c));
            proof {
                assert(proof_stream.objects_view().take(base) =~= before.take(base));
            }
            sample = sample + 1;
        }
        let ghost mid = proof_stream.objects_view();
        let mut sample: usize = 0;
        while sample < t
            invariant
                t == self.tests_spec(),
                half == current_codeword@.len() / 2,
                c_indices@.len() >= t,
                a_indices@ == c_indices@,
                b_indices@.len() == c_indices@.len(),
                forall|j: int| 0 <= j < c_indices@.len() ==> #[trigger] b_indices@[j] == c_indices@[j] + half,
                forall|s: int|
                    0 <= s < t ==> (#[trigger] c_indices@[s]) < half && c_indices@[s] < next_codeword@.len(),
                is_pow2(current_codeword@.len() as int),
                current_codeword@.len() >= 2,
                is_pow2(next_codeword@.len() as int),
                next_codeword@.len() >= 2,
                sample <= t,
                mid.len() == base + t,
                proof_stream.objects_view().len() == base + t + 3 * sample,
                proof_stream.objects_view().take(base + t) == mid,
                proof_stream.prefix_view() == old(proof_stream).prefix_view(),
                proof_stream.read_view() == old(proof_stream).read_view(),
                forall|s: int|
                    0 <= s < sample ==> {
                        let at = base + t + 3 * s;
                        &&& is_path_of(proof_stream.objects_view()[at], #[trigger] c_indices@[s] as int, current_codeword@)
                        &&& is_path_of(proof_stream.objects_view()[at + 1], c_indices@[s] + half, current_codeword@)
                        &&& is_path_of(proof_stream.objects_view()[at + 2], c_indices@[s] as int, next_codeword@)
                    },
            decreases t - sample,
        {
            let ghost before = proof_stream.objects_view();
            let pa = merkle_open_codeword(a_indices[sample], current_codeword);
            proof_stream.push(FriProofItem::AuthenticationPath(pa));
            let pb = merkle_open_codeword(b_indices[sample], current_codeword);
            proof_stream.push(FriProofItem::AuthenticationPath(pb));
            let pc = merkle_open_codeword(c_indices[sample], next_codeword);
            proof_stream.push(FriProofItem::AuthenticationPath(pc));
            proof {
                let objs = proof_stream.objects_view();
                assert(objs.take(base + t) =~= before.take(base + t));
                assert forall|s: int| 0 <= s < sample + 1 implies {
                    let at = base + t + 3 * s;
                    &&& is_path_of(objs[at], #[trigger] c_indices@[s] as int, current_codeword@)
                    &&& is_path_of(objs[at + 1], c_indices@[s] + half, current_codeword@)
                    &&& is_path_of(objs[at + 2], c_indices@[s] as int, next_codeword@)
                } by {
                    if s < sample {
                        let at = base + t + 3 * s;
                        assert(objs[at] == before[at]);
                        assert(objs[at + 1] == before[at + 1]);
                        assert(objs[at + 2] == before[at + 2]);
                    }
                }
            }
            sample = sample + 1;
        }
        proof {
            let objs = proof_stream.objects_view();
            assert(objs.take(base) =~= mid.take(base));
            assert(mid.take(base) =~= start);
            assert forall|s: int| 0 <= s < t implies is_query_values(
                objs[base + s],
                current_codeword@[#[trigger] c_indices@[s] as int],
                current_codeword@[c_indices@[s] + half],
                next_codeword@[c_indices@[s] as int],
            ) by {
                assert(objs[base + s] == mid[base + s]);
            }
        }
        let mut out = a_indices;
        let mut j: usize = 0;
        let ghost n = c_indices@.len();
        while j < b_indices.len()
            invariant
                n == c_indices@.len(),
                b_indices@.len() == n,
                forall|k: int| 0 <= k < n ==> #[trigger] b_indices@[k] == c_indices@[k] + half,
                j <= n,
                out@.len() == n + j,
                forall|k: int| 0 <= k < n ==> #[trigger] out@[k] == c_indices@[k],
                forall|k: int| 0 <= k < j ==> #[trigger] out@[n + k] == c_indices@[k] + half,
            decreases n - j,
        {
            out.push(b_indices[j]);
            j = j + 1;
        }
        out
    }

    /// Produces a FRI proof for the supplied codeword: commits all layers,
    /// samples the top-level indices from the transcript, and opens every
    /// folding round at those indices.  Returns the top-level indices.
    pub fn prove(&self, codeword: &[FieldElement], proof_stream: &mut FriProofStream) -> (indices: Vec<usize>)
        requires
            codeword@.len() == self.domain_length_spec(),
            is_pow2(codeword@.len() as int),
            codeword_in_field(codeword@, self.field_spec()),
        ensures
            final(proof_stream).objects_view().take(old(proof_stream).objects_view().len() as int)
                == old(proof_stream).objects_view(),
            final(proof_stream).objects_view().len() >= old(proof_stream).objects_view().len() + self.rounds_spec() + 1,
            final(proof_stream).prefix_view() == old(proof_stream).prefix_view(),
            final(proof_stream).read_view() == old(proof_stream).read_view(),
            self.rounds_spec() <= 1 ==> indices@.len() == 0,
            self.rounds_spec() > 1 && self.tests_spec() >= 1 ==> indices@.len() >= 1,
            indices@.len() <= self.tests_spec(),
            forall|i: int| 0 <= i < indices@.len() ==> (#[trigger] indices@[i]) < codeword@.len() / 2,
            exists|cws: Seq<Seq<FieldElement>>|
                #![trigger commits_layers(final(proof_stream).objects_view(), old(proof_stream).objects_view().len() as int, old(proof_stream).prefix_view(), codeword@, cws, self.rounds_spec(), self.field_spec(), self.offset_spec().value as int, self.omega_spec().value as int)]
                commits_layers(
                    final(proof_stream).objects_view(),
                    old(proof_stream).objects_view().len() as int,
                    old(proof_stream).prefix_view(),
                    codeword@,
                    cws,
                    self.rounds_spec(),
                    self.field_spec(),
                    self.offset_spec().value as int,
                    self.omega_spec().value as int,
                ) && (self.rounds_spec() > 1 && indices@.len() == self.tests_spec() ==> queries_written(
                    final(proof_stream).objects_view(),
                    old(proof_stream).objects_view().len() as int,
                    cws,
                    indices@,
                    self.rounds_spec(),
                    self.tests_spec(),
                )),
            self.rounds_spec() > 1 && indices@.len() == self.tests_spec() ==> final(proof_stream).objects_view().len()
                == old(proof_stream).objects_view().len() + self.rounds_spec() + 1 + (self.rounds_spec() - 1) * (4
                * self.tests_spec()),
            forall|i: int|
                0 <= i < indices@.len() ==> drawn_from(
                    shake256_output(
                        challenge_input(
                            old(proof_stream).prefix_view(),
                            final(proof_stream).objects_view(),
                            (old(proof_stream).objects_view().len() + self.rounds_spec() + 1) as int,
                        ),
                        32,
                    ),
                    (codeword@.len() / 2) as nat,
                    #[trigger] indices@[i] as int,
                ),
            self.rounds_spec() > 1 ==> indices@ == kept_indices(
                shake256_output(
                    challenge_input(
                        old(proof_stream).prefix_view(),
                        final(proof_stream).objects_view(),
                        (old(proof_stream).objects_view().len() + self.rounds_spec() + 1) as int,
                    ),
                    32,
                ),
                (codeword@.len() / 2) as nat,
                codeword@.len() / pow2((self.rounds_spec() - 1) as nat),
                self.tests_spec(),
                usize::MAX as nat,
            ),
    {
        proof {
            use_type_invariant(self);
        }
        let ghost base = proof_stream.objects_view().len() as int;
        let ghost start = proof_stream.objects_view();
        let owned = vstd::slice::slice_to_vec(codeword);
        let codewords = self.commit(owned, proof_stream);
        let ghost after_commit = proof_stream.objects_view();
        let ghost views = Seq::new(codewords@.len(), |k: int| codewords@[k]@);
        let ghost d = codeword@.len();
        proof {
            assert(views.last() == codewords@.last()@);
            assert(commits_layers(
                after_commit,
                base,
                old(proof_stream).prefix_view(),
                codeword@,
                views,
                self.rounds_spec(),
                self.field,
                self.offset.value as int,
                self.omega.value as int,
            ));
        }
        if codewords.len() <= 1 {
            return Vec::new();
        }
        let ghost r = self.rounds_spec();
        proof {
            reveal(layers_ok);
            reveal(rounds_left);
            assert(views[1] == codewords@[1]@);
            assert(views[r - 1] == codewords@[r - 1]@);
            assert(rounds_for(views[r - 1].len(), self.expansion_factor as nat, self.num_colinearity_tests as nat) == 1);
            lemma_pow2_unfold(1);
            lemma_pow2_pos(0);
            assert(pow2(0) == 1) by {
                lemma2_to64();
            }
        }
        let seed = proof_stream.prover_fiat_shamir(32);
        let n = codewords.len();
        let size = codewords[1].len();
        let reduced_size = codewords[n - 1].len();
        proof {
            assert(reduced_size == d / pow2((r - 1) as nat));
        }
        let top = self.sample_indices(seed.as_slice(), size, reduced_size, self.num_colinearity_tests);
        proof {
            reveal(layers_ok);
            assert(views[1] == codewords@[1]@);
            lemma_pow2_unfold(1);
            lemma_pow2_pos(0);
            assert(pow2(0) == 1) by {
                lemma2_to64();
            }
            assert(size == d / 2);
            assert(after_commit.len() == base + r + 1);
            assert(after_commit.take(after_commit.len() as int) =~= after_commit);
        }
        if top.len() < self.num_colinearity_tests {
            return top;
        }
        let mut indices = vstd::slice::slice_to_vec(top.as_slice());
        let mut round: usize = 0;
        while round + 1 < n
            invariant
                n == codewords@.len(),
                n == r,
                n >= 2,
                views == Seq::new(codewords@.len(), |k: int| codewords@[k]@),
                layers_ok(views, d, self.field),
                rounds_left(views, r, self.expansion_factor as nat, self.num_colinearity_tests as nat),
                self.expansion_factor >= 1,
                round + 1 <= n,
                indices@.len() == top@.len(),
                top@.len() >= self.num_colinearity_tests,
                forall|i: int| 0 <= i < indices@.len() ==> (#[trigger] indices@[i]) < views[round as int].len(),
                start.len() == base,
                proof_stream.objects_view().len() >= base + r + 1,
                proof_stream.objects_view().take(base) == start,
                proof_stream.objects_view().take(base + r + 1) == after_commit,
                after_commit.len() == base + r + 1,
                proof_stream.prefix_view() == old(proof_stream).prefix_view(),
                proof_stream.read_view() == old(proof_stream).read_view(),
                base >= 0,
                self.num_colinearity_tests == self.tests_spec(),
                proof_stream.objects_view().len() == base + r + 1 + round * (4 * self.num_colinearity_tests),
                round == 0 ==> indices@ == top@,
                round >= 1 ==> indices@ == round_indices(top@, views, (round - 1) as nat),
                forall|rd: int, s: int|
                    0 <= rd < round && 0 <= s < self.num_colinearity_tests ==> #[trigger] query_written(
                        proof_stream.objects_view(),
                        round_start(base, r, self.num_colinearity_tests as nat, rd) + s,
                        round_start(base, r, self.num_colinearity_tests as nat, rd) + self.num_colinearity_tests + 3 * s,
                        round_indices(top@, views, rd as nat)[s] as int,
                        views[rd],
                        views[rd + 1],
                    ),
            decreases n - round,
        {
            let half = codewords[round].len() / 2;
            proof {
                reveal(layers_ok);
                reveal(rounds_left);
                assert(views[round as int] == codewords@[round as int]@);
                assert(views[round + 1] == codewords@[round + 1]@);
                assert(rounds_for(views[round + 1].len(), self.expansion_factor as nat, self.num_colinearity_tests as nat) >= 1);
                reveal(is_pow2);
                lemma_pow2_lt_half(1, views[round as int].len() as int);
                lemma_pow2_unfold((round + 1) as nat);
                lemma_pow2_pos(round as nat);
                lemma_div_denominator(d as int, pow2(round as nat) as int, 2);
            }
            let mut reduced: Vec<usize> = Vec::new();
            let mut j: usize = 0;
            while j < indices.len()
                invariant
                    half > 0,
                    j <= indices@.len(),
                    reduced@.len() == j,
                    forall|k: int| 0 <= k < j ==> (#[trigger] reduced@[k]) < half,
                    reduced@ == reduced_mod(indices@, half as int).take(j as int),
                decreases indices@.len() - j,
            {
                reduced.push(indices[j] % half);
                j = j + 1;
                proof {
                    assert(reduced@ =~= reduced_mod(indices@, half as int).take(j as int));
                }
            }
            proof {
                assert(reduced@ =~= reduced_mod(indices@, half as int));
                assert(views[round as int].len() == codewords@[round as int]@.len());
                assert(reduced@ == round_indices(top@, views, round as nat));
            }
            indices = reduced;
            let ghost before = proof_stream.objects_view();
            let ghost t = self.num_colinearity_tests;
            self.query(codewords[round].as_slice(), codewords[round + 1].as_slice(), indices.as_slice(), proof_stream);
            proof {
                let now = proof_stream.objects_view();
                assert(now.take(base) =~= before.take(base));
                assert(now.take(base + r + 1) =~= before.take(base + r + 1));
                assert(now.take(before.len() as int) == before);
                assert(round_start(base, r, t as nat, round as int) == before.len());
                assert((round + 1) * (4 * t) == round * (4 * t) + 4 * t) by (nonlinear_arith);
                assert forall|rd: int, s: int|
                    0 <= rd < round + 1 && 0 <= s < t implies #[trigger] query_written(
                        now,
                        round_start(base, r, t as nat, rd) + s,
                        round_start(base, r, t as nat, rd) + t + 3 * s,
                        round_indices(top@, views, rd as nat)[s] as int,
                        views[rd],
                        views[rd + 1],
                    ) by {
                    if rd < round {
                        assert(rd * (4 * t) + 4 * t <= round * (4 * t)) by (nonlinear_arith)
                            requires
                                0 <= rd < round,
                                t >= 0,
                        ;
                        lemma_query_kept(
                            before,
                            now,
                            round_start(base, r, t as nat, rd) + s,
                            round_start(base, r, t as nat, rd) + t + 3 * s,
                            round_indices(top@, views, rd as nat)[s] as int,
                            views[rd],
                            views[rd + 1],
                        );
                    } else {
                        assert(views[rd] == codewords@[rd]@);
                        assert(views[rd + 1] == codewords@[rd + 1]@);
                        assert(indices@[s] == round_indices(top@, views, rd as nat)[s]);
                    }
                }
            }
            round = round + 1;
        }
        proof {
            let fin = proof_stream.objects_view();
            let more = fin.subrange(after_commit.len() as int, fin.len() as int);
            assert(fin =~= after_commit + more);
            lemma_transcript_extend(
                after_commit,
                more,
                base,
                old(proof_stream).prefix_view(),
                views,
                r as int,
                self.field,
                self.offset.value as int,
                self.omega.value as int,
            );
            assert(fin[base + r] == after_commit[base + r]);
            assert(commits_layers(
                fin,
                base,
                old(proof_stream).prefix_view(),
                codeword@,
                views,
                self.rounds_spec(),
                self.field,
                self.offset.value as int,
                self.omega.value as int,
            ));
            assert(queries_written(fin, base, views, top@, r, self.tests_spec()));
            assert(forall|i: int| 0 <= i < top@.len() ==> (#[trigger] top@[i]) < d / 2) by {
                reveal(layers_ok);
                assert(views[1] == codewords@[1]@);
                lemma_pow2_unfold(1);
                lemma_pow2_pos(0);
                assert(pow2(0) == 1) by {
                    lemma2_to64();
                }
            }
        }
        top
    }
}

/// Reads the next object when it is a Merkle root.
fn read_root(proof_stream: &mut FriProofStream) -> (r: Option<Vec<u8>>)
    requires
        old(proof_stream).wf(),
    ensures
        final(proof_stream).wf(),
        final(proof_stream).objects_view() == old(proof_stream).objects_view(),
        final(proof_stream).prefix_view() == old(proof_stream).prefix_view(),
        r is Some ==> final(proof_stream).read_view() == old(proof_stream).read_view() + 1,
        r is Some ==> old(proof_stream).read_view() < old(proof_stream).objects_view().len(),
        r is None ==> final(proof_stream).read_view() == old(proof_stream).read_view(),
        r matches Some(root) ==> old(proof_stream).objects_view()[old(proof_stream).read_view() as int] matches FriProofItem::MerkleRoot(x) && x@ == root@,
        r is Some <==> old(proof_stream).read_view() < old(proof_stream).objects_view().len()
            && old(proof_stream).objects_view()[old(proof_stream).read_view() as int] is MerkleRoot,
{
    if !proof_stream.has_unread() {
        return None;
    }
    let root = match proof_stream.peek() {
        FriProofItem::MerkleRoot(x) => crate::bytes::copy_bytes(x.as_slice()),
        _ => {
            return None;
        },
    };
    proof_stream.advance();
    Some(root)
}

/// Reads the next object when it is a codeword in the clear.
fn read_last_codeword(proof_stream: &mut FriProofStream) -> (r: Option<Vec<FieldElement>>)
    requires
        old(proof_stream).wf(),
    ensures
        final(proof_stream).wf(),
        final(proof_stream).objects_view() == old(proof_stream).objects_view(),
        final(proof_stream).prefix_view() == old(proof_stream).prefix_view(),
        r is Some ==> final(proof_stream).read_view() == old(proof_stream).read_view() + 1,
        r is Some ==> old(proof_stream).read_view() < old(proof_stream).objects_view().len(),
        r is None ==> final(proof_stream).read_view() == old(proof_stream).read_view(),
        r matches Some(c) ==> is_last_codeword(old(proof_stream).objects_view()[old(proof_stream).read_view() as int], c@),
        r is Some <==> old(proof_stream).read_view() < old(proof_stream).objects_view().len()
            && old(proof_stream).objects_view()[old(proof_stream).read_view() as int] is LastCodeword,
{
    if !proof_stream.has_unread() {
        return None;
    }
    let codeword = match proof_stream.peek() {
        FriProofItem::LastCodeword(x) => copy_elements(x),
        _ => {
            return None;
        },
    };
    proof_stream.advance();
    Some(codeword)
}

/// Reads the next object when it is a triple of query values.
fn read_query_values(proof_stream: &mut FriProofStream) -> (r: Option<(FieldElement, FieldElement, FieldElement)>)
    requires
        old(proof_stream).wf(),
    ensures
        final(proof_stream).wf(),
        final(proof_stream).objects_view() == old(proof_stream).objects_view(),
        final(proof_stream).prefix_view() == old(proof_stream).prefix_view(),
        r is Some ==> final(proof_stream).read_view() == old(proof_stream).read_view() + 1,
        r is Some ==> old(proof_stream).read_view() < old(proof_stream).objects_view().len(),
        r is None ==> final(proof_stream).read_view() == old(proof_stream).read_view(),
        r matches Some((a, b, c)) ==> is_query_values(old(proof_stream).objects_view()[old(proof_stream).read_view() as int], a, b, c),
        r is Some <==> old(proof_stream).read_view() < old(proof_stream).objects_view().len()
            && old(proof_stream).objects_view()[old(proof_stream).read_view() as int] is QueryValues,
{
    if !proof_stream.has_unread() {
        return None;
    }
    let values = match proof_stream.peek() {
        FriProofItem::QueryValues(a, b, c) => (*a, *b, *c),
        _ => {
            return None;
        },
    };
    proof_stream.advance();
    Some(values)
}

/// Reads the next object when it is an authentication path.
fn read_path(proof_stream: &mut FriProofStream) -> (r: Option<Vec<Vec<u8>>>)
    requires
        old(proof_stream).wf(),
    ensures
        final(proof_stream).wf(),
        final(proof_stream).objects_view() == old(proof_stream).objects_view(),
        final(proof_stream).prefix_view() == old(proof_stream).prefix_view(),
        r is Some ==> final(proof_stream).read_view() == old(proof_stream).read_view() + 1,
        r is Some ==> old(proof_stream).read_view() < old(proof_stream).objects_view().len(),
        r is None ==> final(proof_stream).read_view() == old(proof_stream).read_view(),
        r matches Some(path) ==> old(proof_stream).objects_view()[old(proof_stream).read_view() as int] matches FriProofItem::AuthenticationPath(x) && byte_views(x@) == byte_views(path@),
        r is Some <==> old(proof_stream).read_view() < old(proof_stream).objects_view().len()
            && old(proof_stream).objects_view()[old(proof_stream).read_view() as int] is AuthenticationPath,
{
    if !proof_stream.has_unread() {
        return None;
    }
    let path = match proof_stream.peek() {
        FriProofItem::AuthenticationPath(x) => copy_paths(x),
        _ => {
            return None;
        },
    };
    proof_stream.advance();
    Some(path)
}

/// A copy of a list of byte strings.
pub(crate) fn copy_paths(x: &Vec<Vec<u8>>) -> (r: Vec<Vec<u8>>)
    ensures
        byte_views(r@) == byte_views(x@),
        r@.len() == x@.len(),
{
    let mut out: Vec<Vec<u8>> = Vec::new();
    let mut i: usize = 0;
    while i < x.len()
        invariant
            i <= x@.len(),
            out@.len() == i,
            forall|j: int| 0 <= j < i ==> (#[trigger] out@[j])@ == x@[j]@,
        decreases x@.len() - i,
    {
        out.push(crate::bytes::copy_bytes(x[i].as_slice()));
        i = i + 1;
    }
    proof {
        assert(byte_views(out@) =~= byte_views(x@));
    }
    out
}

/// Checks an authentication path of a codeword element against a root;
/// a path of the wrong shape is rejected.
pub(crate) fn check_path(root: &[u8], index: usize, path: &[Vec<u8>], element: &FieldElement) -> (ok: bool)
    ensures
        ok == (0 < path@.len() < 64 && path@.len() < usize::BITS && (index as nat) < pow2(path@.len()) && root@ == path_root(
            index as nat,
            byte_views(path@),
            blake2b512_digest(decimal_digits(element.value as nat)),
        )),
{
    if path.len() == 0 || path.len() >= 64 {
        return false;
    }
    if path.len() as u32 >= usize::BITS {
        return false;
    }
    let mut limit: u128 = 1;
    let mut k: usize = 0;
    proof {
        lemma2_to64();
    }
    while k < path.len()
        invariant
            k <= path@.len(),
            path@.len() < 64,
            limit == pow2(k as nat),
        decreases path@.len() - k,
    {
        proof {
            lemma_pow2_unfold((k + 1) as nat);
            lemma_pow2_strictly_increases(k as nat, 63);
            lemma2_to64();
            lemma2_to64_rest();
            assert(pow2(63) == 0x8000_0000_0000_0000);
            assert(limit < 0x8000_0000_0000_0000);
        }
        limit = limit * 2;
        k = k + 1;
    }
    if index as u128 >= limit {
        return false;
    }
    let leaf = element.to_bytes();
    Merkle::verify(root, index, path, leaf.as_slice())
}

/// The root carried by a Merkle-root object (empty for other objects).
pub open spec fn root_of(item: FriProofItem) -> Seq<u8> {
    match item {
        FriProofItem::MerkleRoot(root) => root@,
        _ => Seq::empty(),
    }
}

/// The codeword carried in the clear by an object (empty for other objects).
pub open spec fn codeword_of(item: FriProofItem) -> Seq<FieldElement> {
    match item {
        FriProofItem::LastCodeword(w) => w@,
        _ => Seq::empty(),
    }
}

/// The object is a Merkle root.
pub open spec fn is_merkle_root(item: FriProofItem) -> bool {
    match item {
        FriProofItem::MerkleRoot(_) => true,
        _ => false,
    }
}

/// The objects from `start` on are Merkle roots carrying `roots`.
pub open spec fn roots_at(objs: Seq<FriProofItem>, start: int, roots: Seq<Seq<u8>>) -> bool {
    forall|j: int| 0 <= j < roots.len() ==> #[trigger] root_object(objs[start + j], roots[j])
}

/// The object is a Merkle root carrying `root`.
pub open spec fn root_object(item: FriProofItem, root: Seq<u8>) -> bool {
    is_merkle_root(item) && root_of(item) == root
}

/// One more root read.
proof fn lemma_roots_push(objs: Seq<FriProofItem>, start: int, roots: Seq<Seq<u8>>, r: Seq<u8>)
    requires
        roots_at(objs, start, roots),
        root_object(objs[start + roots.len()], r),
    ensures
        roots_at(objs, start, roots.push(r)),
{
    let rv = roots.push(r);
    assert forall|j: int| 0 <= j < rv.len() implies #[trigger] root_object(objs[start + j], rv[j]) by {
        if j < roots.len() {
            assert(rv[j] == roots[j]);
        }
    }
}

/// The hash of the Merkle leaf of a codeword element.
pub open spec fn leaf_hash(e: FieldElement) -> Seq<u8> {
    blake2b512_digest(decimal_digits(e.value as nat))
}

/// The points lie on a line whenever their abscissas differ by units.
pub open spec fn colinear_if_invertible(points: Seq<(FieldElement, FieldElement)>, p: int) -> bool {
    differences_invertible(points.map_values(|q: (FieldElement, FieldElement)| q.0), p as nat)
        ==> exists|a: int, b: int| #[trigger] on_line(points, a, b, p)
}

/// The last-layer checks: the object after the `rounds` roots carries a
/// codeword in the clear, in the field, whose Merkle root is the last
/// root, and a polynomial with at most `len / expansion` coefficients
/// takes its values on the last coset.
pub open spec fn last_layer_ok(
    objs: Seq<FriProofItem>,
    start: int,
    rounds: nat,
    f: Field,
    off: int,
    om: int,
    expansion: nat,
) -> bool {
    &&& rounds >= 1
    &&& 0 <= start
    &&& start + rounds < objs.len()
    &&& is_merkle_root(objs[start + rounds - 1])
    &&& objs[start + rounds] is LastCodeword
    &&& root_of(objs[start + rounds - 1]) == codeword_root(codeword_of(objs[start + rounds]))
    &&& codeword_in_field(codeword_of(objs[start + rounds]), f)
    &&& exists|q: Seq<FieldElement>|
        q.len() <= codeword_of(objs[start + rounds]).len() / expansion && #[trigger] agrees_on_coset(
            q,
            codeword_of(objs[start + rounds]),
            f,
            off,
            om,
            (rounds - 1) as nat,
        )
}

/// The polynomial `q` takes the values `w` on the coset reached after `k`
/// foldings.
pub open spec fn agrees_on_coset(q: Seq<FieldElement>, w: Seq<FieldElement>, f: Field, off: int, om: int, k: nat) -> bool {
    forall|i: int|
        0 <= i < w.len() ==> #[trigger] w[i] == f.element_of(poly_eval(q, fold_point(off, om, k, i) % (f.p as int)))
}

/// The openings of one sample of round `r`: at `qpos` the values at
/// positions `a` and `a + half` of layer `r` and at `a` of layer `r + 1`;
/// after `ppos` their authentication paths against the two layers'
/// roots; and the three points (domain point, value) and (challenge,
/// value) colinear whenever their abscissas differ by units.
pub open spec fn query_ok(
    objs: Seq<FriProofItem>,
    qpos: int,
    ppos: int,
    a: int,
    half: int,
    root: Seq<u8>,
    next_root: Seq<u8>,
    alpha: FieldElement,
    f: Field,
    off: int,
    om: int,
    r: nat,
) -> bool {
    &&& objs[qpos] matches FriProofItem::QueryValues(ay, by, cy)
    &&& objs[ppos] matches FriProofItem::AuthenticationPath(pa)
    &&& objs[ppos + 1] matches FriProofItem::AuthenticationPath(pb)
    &&& objs[ppos + 2] matches FriProofItem::AuthenticationPath(pc)
    &&& root == path_root(a as nat, byte_views(pa@), leaf_hash(ay))
    &&& root == path_root((a + half) as nat, byte_views(pb@), leaf_hash(by))
    &&& next_root == path_root(a as nat, byte_views(pc@), leaf_hash(cy))
    &&& colinear_if_invertible(
        seq![
            (f.element_of(fold_point(off, om, r, a)), ay),
            (f.element_of(fold_point(off, om, r, a + half)), by),
            (alpha, cy),
        ],
        f.p as int,
    )
}

/// The first position of the query openings of round `r`.
pub open spec fn round_start(start: int, rounds: nat, tests: nat, r: int) -> int {
    start + rounds + 1 + r * (4 * tests)
}

/// The domain point of position `i` of the coset reached after `k`
/// foldings, computed from the residues of the `2^k`-th powers.
proof fn lemma_coset_point(offset_k: FieldElement, omega_k: FieldElement, off: int, om: int, k: nat, i: int, p: int)
    requires
        p > 0,
        0 <= i,
        offset_k.value == pow(off, pow2(k)) % p,
        omega_k.value == pow(om, pow2(k)) % p,
    ensures
        (offset_k.value * pow(omega_k.value as int, i as nat)) % p == fold_point(off, om, k, i) % p,
{
    let ow = pow(om, pow2(k));
    lemma_mod_twice(pow(off, pow2(k)), p);
    lemma_pow_mod_noop(ow, i as nat, p);
    lemma_pow_multiplies(om, pow2(k), i as nat);
    crate::polynomial::multivariate_eval::lemma_mul_congruent(
        offset_k.value as int,
        pow(omega_k.value as int, i as nat),
        pow(off, pow2(k)),
        pow(ow, i as nat),
        p,
    );
}

/// `d / 2^k`.
fn halve(d: usize, k: usize) -> (r: usize)
    ensures
        r == (d as nat) / pow2(k as nat),
{
    let mut r = d;
    let mut j: usize = 0;
    proof {
        lemma2_to64();
    }
    while j < k
        invariant
            j <= k,
            r == (d as nat) / pow2(j as nat),
        decreases k - j,
    {
        proof {
            lemma_pow2_unfold((j + 1) as nat);
            lemma_pow2_pos(j as nat);
            lemma_div_denominator(d as int, pow2(j as nat) as int, 2);
        }
        r = r / 2;
        j = j + 1;
    }
    r
}

/// Below the number of rounds, layer lengths exceed the expansion factor
/// and four times the number of tests.
proof fn lemma_rounds_lengths(d: nat, e: nat, t: nat, k: nat)
    requires
        k < rounds_for(d, e, t),
    ensures
        d / pow2(k) > e,
        4 * t < d / pow2(k),
        rounds_for(d / pow2(k), e, t) == rounds_for(d, e, t) - k,
    decreases k,
{
    lemma2_to64();
    if k > 0 {
        lemma_rounds_lengths(d, e, t, (k - 1) as nat);
        lemma_pow2_unfold(k);
        lemma_pow2_pos((k - 1) as nat);
        lemma_div_denominator(d as int, pow2((k - 1) as nat) as int, 2);
        let l = d / pow2((k - 1) as nat);
        assert(rounds_for(l, e, t) == 1 + rounds_for(l / 2, e, t));
        assert(l / 2 == d / pow2(k));
    } else {
        assert(pow2(0) == 1);
        lemma_div_basics(d as int);
        assert(d / pow2(k) == d);
    }
    let m = d / pow2(k);
    assert(rounds_for(m, e, t) >= 1);
}

/// All elements are well-formed elements of `f`.
fn all_in_field(c: &Vec<FieldElement>, f: Field) -> (ok: bool)
    ensures
        ok == codeword_in_field(c@, f),
{
    let mut i: usize = 0;
    while i < c.len()
        invariant
            i <= c@.len(),
            forall|j: int| 0 <= j < i ==> (#[trigger] c@[j]).field == f && c@[j].wf(),
        decreases c@.len() - i,
    {
        if c[i].field != f || c[i].value >= c[i].field.p {
            return false;
        }
        i = i + 1;
    }
    true
}

/// No two points coincide.
pub(crate) fn all_distinct(c: &Vec<FieldElement>) -> (ok: bool)
    ensures
        ok == distinct_points(c@),
{
    let mut i: usize = 0;
    while i < c.len()
        invariant
            i <= c@.len(),
            forall|a: int, b: int| 0 <= a < i && 0 <= b < c@.len() && a != b ==> c@[a].value != c@[b].value,
        decreases c@.len() - i,
    {
        let mut j: usize = 0;
        while j < c.len()
            invariant
                i < c@.len(),
                j <= c@.len(),
                forall|a: int, b: int| 0 <= a < i && 0 <= b < c@.len() && a != b ==> c@[a].value != c@[b].value,
                forall|b: int| 0 <= b < j && b != i ==> c@[i as int].value != c@[b].value,
            decreases c@.len() - j,
        {
            if j != i && c[i].value == c[j].value {
                return false;
            }
            j = j + 1;
        }
        i = i + 1;
    }
    true
}

/// Two codewords hold the same residues.
fn same_values(a: &Vec<FieldElement>, b: &Vec<FieldElement>) -> (ok: bool)
    ensures
        ok == (a@.len() == b@.len() && forall|i: int| 0 <= i < a@.len() ==> (#[trigger] a@[i]).value == b@[i].value),
{
    if a.len() != b.len() {
        return false;
    }
    let mut i: usize = 0;
    while i < a.len()
        invariant
            a@.len() == b@.len(),
            i <= a@.len(),
            forall|j: int| 0 <= j < i ==> (#[trigger] a@[j]).value == b@[j].value,
        decreases a@.len() - i,
    {
        if a[i].value != b[i].value {
            return false;
        }
        i = i + 1;
    }
    true
}

/// The colinearity test of one query, refusing points outside the field
/// or with coinciding abscissas.
fn check_colinear(ax: FieldElement, ay: FieldElement, bx: FieldElement, by: FieldElement, cx: FieldElement, cy: FieldElement, f: Field) -> (ok: bool)
    requires
        f.p > 1,
        ax.wf() && ax.field == f,
        bx.wf() && bx.field == f,
        cx.wf() && cx.field == f,
    ensures
        ok ==> colinear_if_invertible(seq![(ax, ay), (bx, by), (cx, cy)], f.p as int),
        ok == colinear_checked(ax, ay, bx, by, cx, cy, f),
{
    if ay.field != f || by.field != f || cy.field != f || ay.value >= f.p || by.value >= f.p || cy.value >= f.p {
        return false;
    }
    if ax.value == bx.value || ax.value == cx.value || bx.value == cx.value {
        return false;
    }
    let points = vec![(ax, ay), (bx, by), (cx, cy)];
    proof {
        assert(points@ =~= seq![(ax, ay), (bx, by), (cx, cy)]);
    }
    test_colinearity(points.as_slice())
}

/// Sample `s` of round `rd` was opened consistently at some position of
/// the first half of layer `rd`.
pub open spec fn sample_ok(
    objs: Seq<FriProofItem>,
    start: int,
    prefix: Seq<u8>,
    rounds: nat,
    tests: nat,
    d: nat,
    f: Field,
    off: int,
    om: int,
    rd: int,
    s: int,
) -> bool {
    let half = (d / pow2((rd + 1) as nat)) as int;
    let rs = round_start(start, rounds, tests, rd);
    exists|a: int|
        0 <= a < half && #[trigger] query_ok(
            objs,
            rs + s,
            rs + tests + 3 * s,
            a,
            half,
            root_of(objs[start + rd]),
            root_of(objs[start + rd + 1]),
            fri_challenge(f, prefix, objs, start + rd + 1),
            f,
            off,
            om,
            rd as nat,
        )
}

/// The first value of a query-values object.
pub open spec fn query_value_a(item: FriProofItem) -> FieldElement {
    match item {
        FriProofItem::QueryValues(a, _, _) => a,
        _ => arbitrary(),
    }
}

/// The second value of a query-values object.
pub open spec fn query_value_b(item: FriProofItem) -> FieldElement {
    match item {
        FriProofItem::QueryValues(_, b, _) => b,
        _ => arbitrary(),
    }
}

/// From `base` on, `pv` holds two entries per sample of the first round:
/// a position below `half` with the first value the sample opened, and the
/// position `half` further with the second value.
pub open spec fn values_of_first_round(
    pv: Seq<(usize, FieldElement)>,
    base: int,
    objs: Seq<FriProofItem>,
    rs: int,
    tests: nat,
    half: int,
) -> bool {
    &&& pv.len() == base + 2 * tests
    &&& forall|s: int|
        0 <= s < tests ==> {
            &&& (#[trigger] pv[base + 2 * s]).0 < half
            &&& pv[base + 2 * s].1 == query_value_a(objs[rs + s])
            &&& pv[base + 2 * s + 1].0 == pv[base + 2 * s].0 + half
            &&& pv[base + 2 * s + 1].1 == query_value_b(objs[rs + s])
        }
}

/// The third value of a query-values object.
pub open spec fn query_value_c(item: FriProofItem) -> FieldElement {
    match item {
        FriProofItem::QueryValues(_, _, c) => c,
        _ => arbitrary(),
    }
}

/// The authentication path carried by an object (empty for other objects).
pub open spec fn path_of(item: FriProofItem) -> Seq<Seq<u8>> {
    match item {
        FriProofItem::AuthenticationPath(x) => byte_views(x@),
        _ => Seq::empty(),
    }
}

/// The verifier's check of an authentication path: a path of a length
/// between one and 63 that fits a machine word, a position below two to
/// its length, and the path leads from the element's leaf to `root`.
pub open spec fn path_checked(root: Seq<u8>, index: int, path: Seq<Seq<u8>>, e: FieldElement) -> bool {
    &&& 0 < path.len() < 64
    &&& path.len() < usize::BITS
    &&& 0 <= index
    &&& (index as nat) < pow2(path.len())
    &&& root == path_root(index as nat, path, blake2b512_digest(decimal_digits(e.value as nat)))
}

/// The points of the coset reached after `k` foldings, the first `len`.
pub open spec fn coset_points(f: Field, off: int, om: int, k: nat, len: nat) -> Seq<FieldElement> {
    Seq::new(len, |j: int| f.element_of(fold_point(off, om, k, j)))
}

/// The verifier's checks up to the last layer, as it makes them: `rounds`
/// Merkle roots from `start` on, then a codeword in the clear, in the
/// field, of a power-of-two length of at most `2^30 − 1`, committed by the
/// last root, with at least one coefficient allowed; the inverse of the
/// last coset's generator is its power by the length less one; the coset's
/// points are distinct; and the interpolant of the codeword on the coset
/// takes its values there and has at most `len / expansion` coefficients.
pub open spec fn last_layer_checked(
    objs: Seq<FriProofItem>,
    start: int,
    rounds: nat,
    f: Field,
    off: int,
    om: int,
    expansion: nat,
) -> bool {
    let last = codeword_of(objs[start + rounds]);
    let len = last.len();
    let k = (rounds - 1) as nat;
    let p = f.p as int;
    let lo = pow(om, pow2(k)) % p;
    let domain = coset_points(f, off, om, k, len);
    let q = lagrange_sum(domain, last, len);
    &&& forall|j: int| 0 <= j < rounds ==> start + j < objs.len() && (#[trigger] objs[start + j]) is MerkleRoot
    &&& start + rounds < objs.len()
    &&& objs[start + rounds] is LastCodeword
    &&& rounds >= 1
    &&& codeword_in_field(last, f)
    &&& is_pow2(len as int)
    &&& len <= 0x3fff_ffff
    &&& root_of(objs[start + rounds - 1]) == codeword_root(last)
    &&& len / expansion != 0
    &&& (spec_inverse((lo % p) as nat, p as nat) as int) % p == pow(lo, (len - 1) as nat) % p
    &&& distinct_points(domain)
    &&& forall|j: int| 0 <= j < len ==> (#[trigger] f.element_of(poly_eval(q, domain[j].value as int))).value == last[j].value
    &&& q.len() <= len / expansion
}

/// The verifier's colinearity test: the values are in the field, the
/// abscissas differ, and the interpolant of the three points is linear.
pub open spec fn colinear_checked(
    ax: FieldElement,
    ay: FieldElement,
    bx: FieldElement,
    by: FieldElement,
    cx: FieldElement,
    cy: FieldElement,
    f: Field,
) -> bool {
    &&& ay.field == f && by.field == f && cy.field == f
    &&& ay.value < f.p && by.value < f.p && cy.value < f.p
    &&& ax.value != bx.value && ax.value != cx.value && bx.value != cx.value
    &&& interpolant_is_linear(seq![(ax, ay), (bx, by), (cx, cy)])
}

/// The first `n` samples of a round passed the colinearity test: the
/// query values `aa`, `bb`, `cc` read from `rs` on, at the positions
/// `idx` and `idx + half` of the coset reached after `k` foldings, with
/// the challenge `alpha`.
pub open spec fn samples_colinear(
    objs: Seq<FriProofItem>,
    rs: int,
    idx: Seq<usize>,
    aa: Seq<FieldElement>,
    bb: Seq<FieldElement>,
    cc: Seq<FieldElement>,
    f: Field,
    off: int,
    om: int,
    k: nat,
    half: int,
    alpha: FieldElement,
    n: int,
) -> bool {
    forall|j: int|
        0 <= j < n ==> rs + j < objs.len() && colinear_checked(
            f.element_of(fold_point(off, om, k, idx[j] as int)),
            #[trigger] aa[j],
            f.element_of(fold_point(off, om, k, idx[j] + half)),
            bb[j],
            alpha,
            cc[j],
            f,
        )
}

/// The verifier's checks on sample `s` of round `rd`, as it makes them,
/// `top` being the sampled top-level indices: at its position a
/// query-values object whose values are in the field and pass the
/// colinearity test with the points at `a` and `a + half` of the round's
/// coset and the round's challenge (`a` the index reduced below `half`);
/// then three authentication paths that verify the values against the
/// round's root and the next one.
pub open spec fn sample_checked(
    objs: Seq<FriProofItem>,
    start: int,
    prefix: Seq<u8>,
    rounds: nat,
    tests: nat,
    d: nat,
    f: Field,
    off: int,
    om: int,
    top: Seq<usize>,
    rd: int,
    s: int,
) -> bool {
    let half = (d / pow2((rd + 1) as nat)) as int;
    let rs = round_start(start, rounds, tests, rd);
    let a = (top[s] as int) % half;
    let qpos = rs + s;
    let ppos = rs + tests + 3 * s;
    let ay = query_value_a(objs[qpos]);
    let by = query_value_b(objs[qpos]);
    let cy = query_value_c(objs[qpos]);
    let ax = f.element_of(fold_point(off, om, rd as nat, a));
    let bx = f.element_of(fold_point(off, om, rd as nat, a + half));
    let cx = fri_challenge(f, prefix, objs, start + rd + 1);
    &&& qpos < objs.len()
    &&& objs[qpos] is QueryValues
    &&& colinear_checked(ax, ay, bx, by, cx, cy, f)
    &&& ppos + 2 < objs.len()
    &&& objs[ppos] is AuthenticationPath
    &&& objs[ppos + 1] is AuthenticationPath
    &&& objs[ppos + 2] is AuthenticationPath
    &&& path_checked(root_of(objs[start + rd]), a, path_of(objs[ppos]), ay)
    &&& path_checked(root_of(objs[start + rd]), a + half, path_of(objs[ppos + 1]), by)
    &&& path_checked(root_of(objs[start + rd + 1]), a, path_of(objs[ppos + 2]), cy)
}

/// The (position, value) pairs the verifier collects from the first
/// round: for each sample, its index reduced below half the domain with
/// the first queried value, then that position plus half the domain with
/// the second.
pub open spec fn first_round_pairs(
    objs: Seq<FriProofItem>,
    start: int,
    prefix: Seq<u8>,
    rounds: nat,
    tests: nat,
    d: nat,
) -> Seq<(usize, FieldElement)> {
    let top = verifier_top(objs, start, prefix, rounds, tests, d);
    let half = (d / pow2(1)) as int;
    let rs = round_start(start, rounds, tests, 0);
    Seq::new(
        2 * tests,
        |i: int|
            if i % 2 == 0 {
                (((top[i / 2] as int) % half) as usize, query_value_a(objs[rs + i / 2]))
            } else {
                (((top[i / 2] as int) % half + half) as usize, query_value_b(objs[rs + i / 2]))
            },
    )
}

/// The top-level indices the verifier samples after the last codeword.
pub open spec fn verifier_top(
    objs: Seq<FriProofItem>,
    start: int,
    prefix: Seq<u8>,
    rounds: nat,
    tests: nat,
    d: nat,
) -> Seq<usize> {
    kept_indices(
        shake256_output(challenge_input(prefix, objs, start + rounds + 1), 32),
        d / pow2(1),
        d / pow2((rounds - 1) as nat),
        tests,
        usize::MAX as nat,
    )
}

/// A failing sample fails the verifier's checks.
proof fn lemma_sample_fails(fri: Fri, objs: Seq<FriProofItem>, start: int, prefix: Seq<u8>, rd: int, s: int)
    requires
        fri.rounds_spec() > 1,
        0 <= rd < fri.rounds_spec() - 1,
        0 <= s < fri.tests_spec(),
        !sample_checked(
            objs,
            start,
            prefix,
            fri.rounds_spec(),
            fri.tests_spec(),
            fri.domain_length_spec(),
            fri.field_spec(),
            fri.offset_spec().value as int,
            fri.omega_spec().value as int,
            verifier_top(objs, start, prefix, fri.rounds_spec(), fri.tests_spec(), fri.domain_length_spec()),
            rd,
            s,
        ),
    ensures
        !fri.checks_pass(objs, start, prefix),
{
}

impl Fri {
    /// The checks the verifier makes on a transcript read from `start` on:
    /// the last layer's, and when there are at least two rounds, as many
    /// sampled indices as tests, and every sample of every round but the
    /// last.
    pub open spec fn checks_pass(&self, objs: Seq<FriProofItem>, start: int, prefix: Seq<u8>) -> bool {
        let top = verifier_top(objs, start, prefix, self.rounds_spec(), self.tests_spec(), self.domain_length_spec());
        &&& last_layer_checked(
            objs,
            start,
            self.rounds_spec(),
            self.field_spec(),
            self.offset_spec().value as int,
            self.omega_spec().value as int,
            self.expansion_spec(),
        )
        &&& self.rounds_spec() > 1 ==> {
            &&& top.len() >= self.tests_spec()
            &&& forall|rd: int, s: int|
                0 <= rd < self.rounds_spec() - 1 && 0 <= s < self.tests_spec() ==> #[trigger] sample_checked(
                    objs,
                    start,
                    prefix,
                    self.rounds_spec(),
                    self.tests_spec(),
                    self.domain_length_spec(),
                    self.field_spec(),
                    self.offset_spec().value as int,
                    self.omega_spec().value as int,
                    top,
                    rd,
                    s,
                )
        }
    }

    /// Verifies a FRI proof and collects top-layer query values.  Reads the
    /// roots, drawing a challenge after each; checks the last codeword
    /// against the last root and its degree; then, when there are at least
    /// two rounds, samples the top-level indices and checks every query's
    /// colinearity and authentication paths.  A transcript of the wrong
    /// shape is rejected.
    #[verifier::rlimit(100)]
    #[verifier::spinoff_prover]
    pub fn verify(&self, proof_stream: &mut FriProofStream, polynomial_values: &mut Vec<(usize, FieldElement)>) -> (ok: bool)
        requires
            old(proof_stream).wf(),
        ensures
            final(proof_stream).wf(),
            final(proof_stream).objects_view() == old(proof_stream).objects_view(),
            final(proof_stream).prefix_view() == old(proof_stream).prefix_view(),
            final(proof_stream).read_view() >= old(proof_stream).read_view(),
            final(polynomial_values)@.take(old(polynomial_values)@.len() as int) == old(polynomial_values)@,
            ok == self.checks_pass(old(proof_stream).objects_view(), old(proof_stream).read_view() as int, old(proof_stream).prefix_view()),
            ok ==> last_layer_ok(
                old(proof_stream).objects_view(),
                old(proof_stream).read_view() as int,
                self.rounds_spec(),
                self.field_spec(),
                self.offset_spec().value as int,
                self.omega_spec().value as int,
                self.expansion_spec(),
            ),
            ok && self.rounds_spec() <= 1 ==> final(polynomial_values)@ == old(polynomial_values)@,
            ok && self.rounds_spec() > 1 ==> final(polynomial_values)@ == old(polynomial_values)@ + first_round_pairs(
                old(proof_stream).objects_view(),
                old(proof_stream).read_view() as int,
                old(proof_stream).prefix_view(),
                self.rounds_spec(),
                self.tests_spec(),
                self.domain_length_spec(),
            ),
            ok && self.rounds_spec() > 1 ==> final(polynomial_values)@.len() == old(polynomial_values)@.len() + 2
                * self.tests_spec(),
            ok && self.rounds_spec() > 1 ==> values_of_first_round(
                final(polynomial_values)@,
                old(polynomial_values)@.len() as int,
                old(proof_stream).objects_view(),
                round_start(old(proof_stream).read_view() as int, self.rounds_spec(), self.tests_spec(), 0),
                self.tests_spec(),
                (self.domain_length_spec() / 2) as int,
            ),
            ok && self.rounds_spec() > 1 ==> forall|rd: int, s: int|
                0 <= rd < self.rounds_spec() - 1 && 0 <= s < self.tests_spec() ==> #[trigger] sample_ok(
                    old(proof_stream).objects_view(),
                    old(proof_stream).read_view() as int,
                    old(proof_stream).prefix_view(),
                    self.rounds_spec(),
                    self.tests_spec(),
                    self.domain_length_spec(),
                    self.field_spec(),
                    self.offset_spec().value as int,
                    self.omega_spec().value as int,
                    rd,
                    s,
                ),
    {
        proof {
            use_type_invariant(self);
        }
        let ghost f = self.field;
        let ghost p = f.p as int;
        let ghost off = self.offset.value as int;
        let ghost om = self.omega.value as int;
        let ghost objs = proof_stream.objects_view();
        let ghost prefix = proof_stream.prefix_view();
        let ghost start = proof_stream.read_view() as int;
        let ghost pv0 = polynomial_values@;
        let num_rounds = self.num_rounds();
        let ghost rr = num_rounds as nat;
        let t = self.num_colinearity_tests;
        let ghost e = self.expansion_factor as nat;
        let ghost lc = last_layer_checked(objs, start, rr, f, off, om, e);
        // roots and challenges
        let mut roots: Vec<Vec<u8>> = Vec::new();
        let mut alphas: Vec<FieldElement> = Vec::new();
        let mut i: usize = 0;
        while i < num_rounds
            invariant
                proof_stream.wf(),
                proof_stream.objects_view() == objs,
                proof_stream.prefix_view() == prefix,
                proof_stream.read_view() == start + i,
                f == self.field,
                f.p > 2,
                i <= num_rounds,
                roots@.len() == i,
                alphas@.len() == i,
                roots_at(objs, start, byte_views(roots@)),
                objs == old(proof_stream).objects_view(),
                prefix == old(proof_stream).prefix_view(),
                start == old(proof_stream).read_view(),
                forall|j: int| 0 <= j < i ==> #[trigger] alphas@[j] == fri_challenge(f, prefix, objs, start + j + 1),
                forall|j: int| 0 <= j < i ==> (#[trigger] alphas@[j]).wf() && alphas@[j].field == f,
                rr == num_rounds,
                rr == self.rounds_spec(),
                e == self.expansion_factor,
                off == self.offset.value,
                om == self.omega.value,
                lc == last_layer_checked(objs, start, rr, f, off, om, e),
            decreases num_rounds - i,
        {
            let root = match read_root(proof_stream) {
                Some(r) => r,
                None => {
                    proof {
                        assert(!(start + i < objs.len() && objs[start + i] is MerkleRoot));
                        assert(!lc);
                        assert(!self.checks_pass(objs, start, prefix));
                    }
                    return false;
                },
            };
            proof {
                lemma_roots_push(objs, start, byte_views(roots@), root@);
                assert(byte_views(roots@.push(root)) =~= byte_views(roots@).push(root@));
            }
            roots.push(root);
            let challenge = proof_stream.verifier_fiat_shamir(32);
            let alpha = self.field.sample(challenge.as_slice());
            alphas.push(alpha);
            i = i + 1;
        }
        // the last codeword
        let last = match read_last_codeword(proof_stream) {
            Some(c) => c,
            None => {
                proof {
                    assert(!lc);
                }
                return false;
            },
        };
        if num_rounds == 0 {
            proof {
                assert(!lc);
            }
            return false;
        }
        proof {
            assert(codeword_of(objs[start + rr]) == last@);
        }
        let len = last.len();
        if !all_in_field(&last, self.field) || !is_power_of_two(len as u128) || len > 0x3fff_ffff {
            proof {
                assert(!lc);
            }
            return false;
        }
        let commitment = merkle_commit_codeword(last.as_slice());
        if !bytes_eq(roots[num_rounds - 1].as_slice(), commitment.as_slice()) {
            proof {
                assert(root_object(objs[start + (rr - 1)], byte_views(roots@)[rr - 1]));
                assert(byte_views(roots@)[rr - 1] == roots@[rr - 1]@);
                assert(!lc);
            }
            return false;
        }
        if len / self.expansion_factor == 0 {
            proof {
                assert(!lc);
            }
            return false;
        }
        let degree = len / self.expansion_factor - 1;
        let mut last_omega = self.omega;
        let mut last_offset = self.offset;
        let mut k: usize = 0;
        proof {
            lemma2_to64();
            lemma_pow1(off);
            lemma_pow1(om);
            lemma_small_mod(off as nat, p as nat);
            lemma_small_mod(om as nat, p as nat);
        }
        while k + 1 < num_rounds
            invariant
                p == f.p,
                p > 2,
                f == self.field,
                k + 1 <= num_rounds,
                last_omega.wf() && last_omega.field == f && last_omega.value == pow(om, pow2(k as nat)) % p,
                last_offset.wf() && last_offset.field == f && last_offset.value == pow(off, pow2(k as nat)) % p,
            decreases num_rounds - k,
        {
            last_omega = last_omega.pow(2);
            last_offset = last_offset.pow(2);
            proof {
                lemma_square_power(om, k as nat, p);
                lemma_square_power(off, k as nat, p);
            }
            k = k + 1;
        }
        let ghost kk = k as nat;
        proof {
            lemma_unit_pow(om, pow2(kk), p);
            lemma_unit_mod(pow(om, pow2(kk)), p);
            lemma_unit_nonzero(last_omega.value as int, p);
            lemma_small_mod(last_omega.value as nat, p as nat);
        }
        let inverse = last_omega.inverse();
        let power = last_omega.pow((len - 1) as u64);
        proof {
            assert(kk == (rr - 1) as nat);
        }
        if inverse.value != power.value {
            proof {
                assert(!lc);
            }
            return false;
        }
        let mut last_domain: Vec<FieldElement> = Vec::new();
        let mut index: usize = 0;
        while index < len
            invariant
                p == f.p,
                p > 2,
                f == self.field,
                index <= len,
                kk == num_rounds - 1,
                last_omega.wf() && last_omega.field == f && last_omega.value == pow(om, pow2(kk)) % p,
                last_offset.wf() && last_offset.field == f && last_offset.value == pow(off, pow2(kk)) % p,
                last_domain@.len() == index,
                forall|j: int| 0 <= j < index ==> #[trigger] last_domain@[j] == f.element_of(fold_point(off, om, kk, j)),
            decreases len - index,
        {
            let w = last_omega.pow(index as u64);
            let point = last_offset * w;
            proof {
                lemma_mul_mod_noop_right(last_offset.value as int, pow(last_omega.value as int, index as nat), p);
                lemma_coset_point(last_offset, last_omega, off, om, kk, index as int, p);
            }
            last_domain.push(point);
            index = index + 1;
        }
        proof {
            assert(last_domain@ =~= coset_points(f, off, om, kk, len as nat));
        }
        if !all_distinct(&last_domain) {
            proof {
                assert(!lc);
            }
            return false;
        }
        proof {
            assert(points_in_field(last_domain@, f));
            assert(points_in_field(last@, f));
        }
        let polynomial = Polynomial::interpolate_domain(last_domain.as_slice(), last.as_slice());
        let evaluations = polynomial.evaluate_domain(last_domain.as_slice());
        if !same_values(&evaluations, &last) {
            proof {
                let j = choose|j: int| 0 <= j < evaluations@.len() && (#[trigger] evaluations@[j]).value != last@[j].value;
                assert(last_domain@[j].field == f);
                assert(!lc);
            }
            return false;
        }
        if polynomial.degree() > degree as isize {
            proof {
                assert(!lc);
            }
            return false;
        }
        proof {
            assert forall|j: int| 0 <= j < rr implies start + j < objs.len() && (#[trigger] objs[start + j]) is MerkleRoot by {
                assert(root_object(objs[start + j], byte_views(roots@)[j]));
            }
            assert forall|j: int| 0 <= j < len implies (#[trigger] f.element_of(
                poly_eval(polynomial@, coset_points(f, off, om, kk, len as nat)[j].value as int),
            )).value == last@[j].value by {
                assert(last_domain@[j].field == f);
                assert(evaluations@[j].value == last@[j].value);
            }
            let lo = pow(om, pow2(kk)) % p;
            assert(kk == (rr - 1) as nat);
            assert(last_omega.value == lo);
            assert(inverse.value as int == (spec_inverse((lo % p) as nat, p as nat) as int) % p);
            assert(power.value as int == pow(lo, (len - 1) as nat) % p);
            assert(distinct_points(coset_points(f, off, om, kk, len as nat)));
            assert(polynomial@ == lagrange_sum(coset_points(f, off, om, kk, len as nat), last@, len as nat));
            assert(polynomial@.len() <= len / self.expansion_factor);
            assert(root_object(objs[start + (rr - 1)], byte_views(roots@)[rr - 1]));
            assert(root_of(objs[start + rr - 1]) == codeword_root(last@));
            assert(codeword_of(objs[start + rr]) == last@);
            assert(lc);
        }
        proof {
            let q = polynomial@;
            assert(q.len() <= len / self.expansion_factor);
            assert forall|j: int| 0 <= j < last@.len() implies #[trigger] last@[j] == f.element_of(
                poly_eval(q, fold_point(off, om, kk, j) % p),
            ) by {
                assert(last_domain@[j] == f.element_of(fold_point(off, om, kk, j)));
                assert(evaluations@[j].value == last@[j].value);
            }
            assert(agrees_on_coset(q, last@, f, off, om, kk));
            let lastpos = start + rr;
            assert(codeword_of(objs[lastpos]) == last@);
            assert(roots@[rr - 1] == roots@[num_rounds - 1]);
            assert(root_object(objs[start + (rr - 1)], byte_views(roots@)[rr - 1]));
            assert(is_merkle_root(objs[start + (rr - 1)]));
            assert(root_of(objs[start + (rr - 1)]) == commitment@);
            assert(lastpos < objs.len());
            assert(kk == (rr - 1) as nat);
            assert(last_layer_ok(objs, start, rr, f, off, om, self.expansion_factor as nat));
        }
        if num_rounds <= 1 {
            return true;
        }
        // the queries
        proof {
            lemma_rounds_lengths(self.domain_length as nat, self.expansion_factor as nat, t as nat, 1);
            lemma_rounds_lengths(self.domain_length as nat, self.expansion_factor as nat, t as nat, (num_rounds - 1) as nat);
        }
        let seed = proof_stream.verifier_fiat_shamir(32);
        let size = halve(self.domain_length, 1);
        let reduced_size = halve(self.domain_length, num_rounds - 1);
        let top = self.sample_indices(seed.as_slice(), size, reduced_size, t);
        let ghost top_spec = verifier_top(objs, start, prefix, rr, t as nat, self.domain_length as nat);
        proof {
            assert(top@ == top_spec);
        }
        if top.len() < t {
            proof {
                assert(!self.checks_pass(objs, start, prefix));
            }
            return false;
        }
        let mut omega = self.omega;
        let mut offset = self.offset;
        let mut round: usize = 0;
        proof {
            assert(proof_stream.read_view() == round_start(start, rr, t as nat, 0));
        }
        while round + 1 < num_rounds
            invariant
                p == f.p,
                p > 2,
                f == self.field,
                rr == num_rounds,
                rr == self.rounds_spec(),
                num_rounds > 1,
                t == self.tests_spec(),
                self.expansion_factor >= 1,
                4 * t <= usize::MAX,
                round + 1 <= num_rounds,
                top@.len() >= t,
                top@ == verifier_top(objs, start, prefix, rr, t as nat, self.domain_length as nat),
                off == self.offset.value as int,
                om == self.omega.value as int,
                last_layer_checked(objs, start, rr, f, off, om, self.expansion_factor as nat),
                forall|rd: int, s: int|
                    0 <= rd < round && 0 <= s < t ==> #[trigger] sample_checked(
                        objs,
                        start,
                        prefix,
                        rr,
                        t as nat,
                        self.domain_length as nat,
                        f,
                        off,
                        om,
                        top@,
                        rd,
                        s,
                    ),
                roots@.len() == num_rounds,
                alphas@.len() == num_rounds,
                roots_at(objs, start, byte_views(roots@)),
                forall|j: int| 0 <= j < num_rounds ==> #[trigger] alphas@[j] == fri_challenge(f, prefix, objs, start + j + 1),
                forall|j: int| 0 <= j < num_rounds ==> (#[trigger] alphas@[j]).wf() && alphas@[j].field == f,
                proof_stream.wf(),
                proof_stream.objects_view() == objs,
                proof_stream.prefix_view() == prefix,
                proof_stream.read_view() == round_start(start, rr, t as nat, round as int),
                objs == old(proof_stream).objects_view(),
                prefix == old(proof_stream).prefix_view(),
                start == old(proof_stream).read_view(),
                pv0 == old(polynomial_values)@,
                omega.wf() && omega.field == f && omega.value == pow(om, pow2(round as nat)) % p,
                offset.wf() && offset.field == f && offset.value == pow(off, pow2(round as nat)) % p,
                polynomial_values@.take(pv0.len() as int) == pv0,
                round >= 1 ==> polynomial_values@.len() == pv0.len() + 2 * t,
                round == 0 ==> polynomial_values@.len() == pv0.len(),
                round >= 1 ==> values_of_first_round(
                    polynomial_values@,
                    pv0.len() as int,
                    objs,
                    round_start(start, rr, t as nat, 0),
                    t as nat,
                    (self.domain_length / 2) as int,
                ),
                round >= 1 ==> polynomial_values@ == pv0 + first_round_pairs(objs, start, prefix, rr, t as nat, self.domain_length as nat),
                forall|rd: int, s: int|
                    0 <= rd < round && 0 <= s < t ==> #[trigger] sample_ok(
                        objs,
                        start,
                        prefix,
                        rr,
                        t as nat,
                        self.domain_length as nat,
                        f,
                        off,
                        om,
                        rd,
                        s,
                    ),
            decreases num_rounds - round,
        {
            let ghost rs = round_start(start, rr, t as nat, round as int);
            let ghost rk = round as nat;
            proof {
                lemma_rounds_lengths(self.domain_length as nat, self.expansion_factor as nat, t as nat, (round + 1) as nat);
                lemma_pow2_pos((round + 1) as nat);
                lemma_pow2_unfold((round + 1) as nat);
                lemma_div_is_ordered_by_denominator(self.domain_length as int, 2, pow2((round + 1) as nat) as int);
            }
            let half = halve(self.domain_length, round + 1);
            let mut c_indices: Vec<usize> = Vec::new();
            let mut j: usize = 0;
            while j < top.len()
                invariant
                    half > 0,
                    j <= top@.len(),
                    c_indices@.len() == j,
                    forall|k: int| 0 <= k < j ==> (#[trigger] c_indices@[k]) < half,
                    forall|k: int| 0 <= k < j ==> (#[trigger] c_indices@[k]) == top@[k] % half,
                decreases top@.len() - j,
            {
                c_indices.push(top[j] % half);
                j = j + 1;
            }
            let alpha = alphas[round];
            let mut aa: Vec<FieldElement> = Vec::new();
            let mut bb: Vec<FieldElement> = Vec::new();
            let mut cc: Vec<FieldElement> = Vec::new();
            let mut sample: usize = 0;
            while sample < t
                invariant
                    p == f.p,
                    p > 2,
                    f == self.field,
                    half > 0,
                    half as int * 2 <= self.domain_length,
                    sample <= t,
                    c_indices@.len() >= t,
                    forall|k: int| 0 <= k < c_indices@.len() ==> (#[trigger] c_indices@[k]) < half,
                    alpha.wf() && alpha.field == f,
                    alpha == fri_challenge(f, prefix, objs, start + round + 1),
                    forall|k: int| 0 <= k < c_indices@.len() ==> (#[trigger] c_indices@[k]) == top@[k] % half,
                    c_indices@.len() == top@.len(),
                    top@ == verifier_top(objs, start, prefix, rr, t as nat, self.domain_length as nat),
                    half as nat == self.domain_length as nat / pow2((round + 1) as nat),
                    rk == round as nat,
                    round >= 1 ==> polynomial_values@ == pv0 + first_round_pairs(objs, start, prefix, rr, t as nat, self.domain_length as nat),
                    off == self.offset.value as int,
                    om == self.omega.value as int,
                    round + 1 < num_rounds,
                    rr == num_rounds,
                    t == self.tests_spec(),
                    omega.wf() && omega.field == f && omega.value == pow(om, pow2(rk)) % p,
                    offset.wf() && offset.field == f && offset.value == pow(off, pow2(rk)) % p,
                    aa@.len() == sample && bb@.len() == sample && cc@.len() == sample,
                    proof_stream.wf(),
                    proof_stream.objects_view() == objs,
                    proof_stream.prefix_view() == prefix,
                    proof_stream.read_view() == rs + sample,
                    rs >= start,
                    objs == old(proof_stream).objects_view(),
                    prefix == old(proof_stream).prefix_view(),
                    start == old(proof_stream).read_view(),
                    pv0 == old(polynomial_values)@,
                    polynomial_values@.take(pv0.len() as int) == pv0,
                    round >= 1 ==> polynomial_values@.len() == pv0.len() + 2 * t,
                    round == 0 ==> polynomial_values@.len() == pv0.len() + 2 * sample,
                    samples_colinear(objs, rs, c_indices@, aa@, bb@, cc@, f, off, om, rk, half as int, alpha, sample as int),
                    round >= 1 ==> values_of_first_round(
                        polynomial_values@,
                        pv0.len() as int,
                        objs,
                        round_start(start, rr, t as nat, 0),
                        t as nat,
                        (self.domain_length / 2) as int,
                    ),
                    round == 0 ==> forall|k: int|
                        0 <= k < sample ==> (#[trigger] polynomial_values@[pv0.len() + 2 * k]) == (c_indices@[k], aa@[k])
                            && polynomial_values@[pv0.len() + 2 * k + 1] == ((c_indices@[k] + half) as usize, bb@[k]),
                    rs == round_start(start, rr, t as nat, round as int),
                    rr == self.rounds_spec(),
                    forall|k: int|
                        0 <= k < sample ==> is_query_values(objs[rs + k], #[trigger] aa@[k], bb@[k], cc@[k])
                            && colinear_if_invertible(
                            seq![
                                (f.element_of(fold_point(off, om, rk, c_indices@[k] as int)), aa@[k]),
                                (f.element_of(fold_point(off, om, rk, c_indices@[k] + half)), bb@[k]),
                                (alpha, cc@[k]),
                            ],
                            p,
                        ),
                decreases t - sample,
            {
                let (ay, by, cy) = match read_query_values(proof_stream) {
                    Some(v) => v,
                    None => {
                        proof {
                            lemma_sample_fails(*self, objs, start, prefix, round as int, sample as int);
                        }
                        return false;
                    },
                };
                let a = c_indices[sample];
                let b = a + half;
                aa.push(ay);
                bb.push(by);
                cc.push(cy);
                let ghost before = polynomial_values@;
                if round == 0 {
                    polynomial_values.push((a, ay));
                    polynomial_values.push((b, by));
                    proof {
                        assert forall|k: int| 0 <= k < sample + 1 implies (#[trigger] polynomial_values@[pv0.len() + 2 * k]) == (c_indices@[k], aa@[k])
                            && polynomial_values@[pv0.len() + 2 * k + 1] == ((c_indices@[k] + half) as usize, bb@[k]) by {
                            if k < sample {
                                assert(polynomial_values@[pv0.len() + 2 * k] == before[pv0.len() + 2 * k]);
                                assert(polynomial_values@[pv0.len() + 2 * k + 1] == before[pv0.len() + 2 * k + 1]);
                            }
                        }
                    }
                }
                proof {
                    assert(round == 0 ==> forall|k: int|
                        0 <= k < sample + 1 ==> (#[trigger] polynomial_values@[pv0.len() + 2 * k]) == (c_indices@[k], aa@[k])
                            && polynomial_values@[pv0.len() + 2 * k + 1] == ((c_indices@[k] + half) as usize, bb@[k]));
                }
                let ghost pv_now = polynomial_values@;
                let wa = omega.pow(a as u64);
                let ax = offset * wa;
                let wb = omega.pow(b as u64);
                let bx = offset * wb;
                proof {
                    lemma_mul_mod_noop_right(offset.value as int, pow(omega.value as int, a as nat), p);
                    lemma_coset_point(offset, omega, off, om, rk, a as int, p);
                    lemma_mul_mod_noop_right(offset.value as int, pow(omega.value as int, b as nat), p);
                    lemma_coset_point(offset, omega, off, om, rk, b as int, p);
                }
                if !check_colinear(ax, ay, bx, by, alpha, cy, self.field) {
                    proof {
                        assert(ax == f.element_of(fold_point(off, om, rk, a as int)));
                        assert(bx == f.element_of(fold_point(off, om, rk, a + half)));
                        assert(a == top@[sample as int] % half);
                        assert(is_query_values(objs[rs + sample], ay, by, cy));
                        assert(query_value_a(objs[rs + sample]) == ay);
                        assert(query_value_b(objs[rs + sample]) == by);
                        assert(query_value_c(objs[rs + sample]) == cy);
                        let ghost hs = (self.domain_length as nat / pow2((round + 1) as nat)) as int;
                        assert(hs == half as int);
                        assert(round_start(start, rr, t as nat, round as int) + sample == rs + sample);
                        assert(fri_challenge(f, prefix, objs, start + round + 1) == alpha);
                        let ghost qp = round_start(start, rr, t as nat, round as int) + sample as int;
                        assert(query_value_a(objs[qp]) == ay);
                        assert(query_value_c(objs[qp]) == cy);
                        let ghost aspec = (top@[sample as int] as int) % hs;
                        assert(aspec == a as int);
                        assert(rk == (round as int) as nat);
                        assert(f.element_of(fold_point(off, om, (round as int) as nat, aspec)) == ax);
                        assert(f.element_of(fold_point(off, om, (round as int) as nat, aspec + hs)) == bx);
                        assert(!colinear_checked(ax, ay, bx, by, alpha, cy, f));
                        assert(!sample_checked(objs, start, prefix, rr, t as nat, self.domain_length as nat, f, off, om, top@, round as int, sample as int));
                        assert(self.domain_length_spec() == self.domain_length as nat);
                        assert(self.field_spec() == f);
                        assert(self.offset_spec().value == off);
                        assert(self.omega_spec().value == om);
                        assert(top@ == verifier_top(objs, start, prefix, self.rounds_spec(), self.tests_spec(), self.domain_length_spec()));
                        lemma_sample_fails(*self, objs, start, prefix, round as int, sample as int);
                    }
                    return false;
                }
                proof {
                    assert(ax == f.element_of(fold_point(off, om, rk, a as int)));
                    assert(bx == f.element_of(fold_point(off, om, rk, a + half)));
                    assert(polynomial_values@ == pv_now);
                    assert(polynomial_values@.take(pv0.len() as int) =~= pv0);
                    assert(round == 0 ==> forall|k: int|
                        0 <= k < sample + 1 ==> (#[trigger] polynomial_values@[pv0.len() + 2 * k]) == (c_indices@[k], aa@[k])
                            && polynomial_values@[pv0.len() + 2 * k + 1] == ((c_indices@[k] + half) as usize, bb@[k]));
                }
                sample = sample + 1;
            }
            let mut sample: usize = 0;
            while sample < t
                invariant
                    p == f.p,
                    f == self.field,
                    half > 0,
                    half as int * 2 <= self.domain_length,
                    sample <= t,
                    c_indices@.len() >= t,
                    forall|k: int| 0 <= k < c_indices@.len() ==> (#[trigger] c_indices@[k]) < half,
                    aa@.len() == t && bb@.len() == t && cc@.len() == t,
                    round + 1 < num_rounds,
                    forall|k: int| 0 <= k < c_indices@.len() ==> (#[trigger] c_indices@[k]) == top@[k] % half,
                    c_indices@.len() == top@.len(),
                    top@ == verifier_top(objs, start, prefix, rr, t as nat, self.domain_length as nat),
                    half as nat == self.domain_length as nat / pow2((round + 1) as nat),
                    rk == round as nat,
                    round >= 1 ==> polynomial_values@ == pv0 + first_round_pairs(objs, start, prefix, rr, t as nat, self.domain_length as nat),
                    off == self.offset.value as int,
                    om == self.omega.value as int,
                    rr == num_rounds,
                    rr == self.rounds_spec(),
                    t == self.tests_spec(),
                    rs == round_start(start, rr, t as nat, round as int),
                    alpha == fri_challenge(f, prefix, objs, start + round + 1),
                    samples_colinear(objs, rs, c_indices@, aa@, bb@, cc@, f, off, om, rk, half as int, alpha, t as int),
                    forall|k: int|
                        0 <= k < sample ==> #[trigger] sample_checked(
                            objs,
                            start,
                            prefix,
                            rr,
                            t as nat,
                            self.domain_length as nat,
                            f,
                            off,
                            om,
                            top@,
                            round as int,
                            k,
                        ),
                    roots@.len() == num_rounds,
                    roots_at(objs, start, byte_views(roots@)),
                    proof_stream.wf(),
                    proof_stream.objects_view() == objs,
                    proof_stream.prefix_view() == prefix,
                    proof_stream.read_view() == rs + t + 3 * sample,
                    rs >= start,
                    objs == old(proof_stream).objects_view(),
                    prefix == old(proof_stream).prefix_view(),
                    start == old(proof_stream).read_view(),
                    pv0 == old(polynomial_values)@,
                    polynomial_values@.take(pv0.len() as int) == pv0,
                    forall|k: int|
                        0 <= k < t ==> is_query_values(objs[rs + k], #[trigger] aa@[k], bb@[k], cc@[k])
                            && colinear_if_invertible(
                            seq![
                                (f.element_of(fold_point(off, om, rk, c_indices@[k] as int)), aa@[k]),
                                (f.element_of(fold_point(off, om, rk, c_indices@[k] + half)), bb@[k]),
                                (alpha, cc@[k]),
                            ],
                            p,
                        ),
                    forall|k: int|
                        0 <= k < sample ==> #[trigger] query_ok(
                            objs,
                            rs + k,
                            rs + t + 3 * k,
                            c_indices@[k] as int,
                            half as int,
                            root_of(objs[start + round]),
                            root_of(objs[start + round + 1]),
                            alpha,
                            f,
                            off,
                            om,
                            rk,
                        ),
                decreases t - sample,
            {
                let pa = match read_path(proof_stream) {
                    Some(x) => x,
                    None => {
                        proof {
                            lemma_sample_fails(*self, objs, start, prefix, round as int, sample as int);
                        }
                        return false;
                    },
                };
                let pb = match read_path(proof_stream) {
                    Some(x) => x,
                    None => {
                        proof {
                            lemma_sample_fails(*self, objs, start, prefix, round as int, sample as int);
                        }
                        return false;
                    },
                };
                let pc = match read_path(proof_stream) {
                    Some(x) => x,
                    None => {
                        proof {
                            lemma_sample_fails(*self, objs, start, prefix, round as int, sample as int);
                        }
                        return false;
                    },
                };
                let ghost ppos = rs + t + 3 * sample;
                let a = c_indices[sample];
                proof {
                    assert(root_object(objs[start + round], byte_views(roots@)[round as int]));
                    assert(root_object(objs[start + (round + 1)], byte_views(roots@)[round + 1]));
                    assert(objs[start + (round + 1)] == objs[start + round + 1]);
                }
                proof {
                    assert(is_query_values(objs[rs + sample], aa@[sample as int], bb@[sample as int], cc@[sample as int]));
                    assert(byte_views(roots@)[round as int] == roots@[round as int]@);
                    assert(byte_views(roots@)[round + 1] == roots@[round + 1]@);
                    assert(path_of(objs[ppos]) == byte_views(pa@));
                    assert(path_of(objs[ppos + 1]) == byte_views(pb@));
                    assert(path_of(objs[ppos + 2]) == byte_views(pc@));
                    assert(a == top@[sample as int] % half);
                }
                if !check_path(roots[round].as_slice(), a, pa.as_slice(), &aa[sample]) {
                    proof {
                        lemma_sample_fails(*self, objs, start, prefix, round as int, sample as int);
                    }
                    return false;
                }
                if !check_path(roots[round].as_slice(), a + half, pb.as_slice(), &bb[sample]) {
                    proof {
                        lemma_sample_fails(*self, objs, start, prefix, round as int, sample as int);
                    }
                    return false;
                }
                if !check_path(roots[round + 1].as_slice(), a, pc.as_slice(), &cc[sample]) {
                    proof {
                        lemma_sample_fails(*self, objs, start, prefix, round as int, sample as int);
                    }
                    return false;
                }
                proof {
                    assert(is_query_values(objs[rs + sample], aa@[sample as int], bb@[sample as int], cc@[sample as int]));
                    assert(query_value_a(objs[rs + sample]) == aa@[sample as int]);
                    assert(query_value_b(objs[rs + sample]) == bb@[sample as int]);
                    assert(query_value_c(objs[rs + sample]) == cc@[sample as int]);
                    assert(rk == (round as int) as nat);
                    let ghost hs = (self.domain_length as nat / pow2((round + 1) as nat)) as int;
                    assert(hs == half as int);
                    assert(colinear_checked(
                        f.element_of(fold_point(off, om, rk, c_indices@[sample as int] as int)),
                        aa@[sample as int],
                        f.element_of(fold_point(off, om, rk, c_indices@[sample as int] + half)),
                        bb@[sample as int],
                        alpha,
                        cc@[sample as int],
                        f,
                    ));
                    assert(sample_checked(
                        objs,
                        start,
                        prefix,
                        rr,
                        t as nat,
                        self.domain_length as nat,
                        f,
                        off,
                        om,
                        top@,
                        round as int,
                        sample as int,
                    ));
                }
                sample = sample + 1;
            }
            proof {
                assert forall|rd: int, s: int|
                    0 <= rd < round + 1 && 0 <= s < t implies #[trigger] sample_ok(
                    objs,
                    start,
                    prefix,
                    rr,
                    t as nat,
                    self.domain_length as nat,
                    f,
                    off,
                    om,
                    rd,
                    s,
                ) by {
                    if rd == round {
                        let a = c_indices@[s] as int;
                        assert(half as int == (self.domain_length as nat / pow2((rd + 1) as nat)) as int);
                        assert(query_ok(
                            objs,
                            rs + s,
                            rs + t + 3 * s,
                            a,
                            half as int,
                            root_of(objs[start + rd]),
                            root_of(objs[start + rd + 1]),
                            fri_challenge(f, prefix, objs, start + rd + 1),
                            f,
                            off,
                            om,
                            rd as nat,
                        ));
                    }
                }
                assert forall|rd: int, s: int|
                    0 <= rd < round + 1 && 0 <= s < t implies #[trigger] sample_checked(
                    objs,
                    start,
                    prefix,
                    rr,
                    t as nat,
                    self.domain_length as nat,
                    f,
                    off,
                    om,
                    top@,
                    rd,
                    s,
                ) by {
                }
                lemma_mul_is_distributive_add_other_way(4 * t as int, round as int, 1);
                if round == 0 {
                    lemma2_to64();
                    assert(half as int == (self.domain_length / 2) as int);
                    assert forall|s: int| 0 <= s < t implies {
                        &&& (#[trigger] polynomial_values@[pv0.len() + 2 * s]).0 < (self.domain_length / 2) as int
                        &&& polynomial_values@[pv0.len() + 2 * s].1 == query_value_a(objs[round_start(start, rr, t as nat, 0) + s])
                        &&& polynomial_values@[pv0.len() + 2 * s + 1].0 == polynomial_values@[pv0.len() + 2 * s].0 + (self.domain_length / 2) as int
                        &&& polynomial_values@[pv0.len() + 2 * s + 1].1 == query_value_b(objs[round_start(start, rr, t as nat, 0) + s])
                    } by {
                        assert(is_query_values(objs[rs + s], aa@[s], bb@[s], cc@[s]));
                    }
                    let frp = first_round_pairs(objs, start, prefix, rr, t as nat, self.domain_length as nat);
                    assert(half as int == (self.domain_length as nat / pow2(1)) as int);
                    assert forall|i: int| 0 <= i < polynomial_values@.len() implies #[trigger] polynomial_values@[i]
                        == (pv0 + frp)[i] by {
                        if i < pv0.len() {
                            assert(polynomial_values@.take(pv0.len() as int)[i] == pv0[i]);
                        } else {
                            let s = (i - pv0.len()) / 2;
                            assert(0 <= s < t);
                            assert(is_query_values(objs[rs + s], aa@[s], bb@[s], cc@[s]));
                            assert(c_indices@[s] == top@[s] % half);
                            if (i - pv0.len()) % 2 == 0 {
                                assert(i == pv0.len() + 2 * s);
                                assert(polynomial_values@[pv0.len() + 2 * s] == (c_indices@[s], aa@[s]));
                            } else {
                                assert(i == pv0.len() + 2 * s + 1);
                                assert(polynomial_values@[pv0.len() + 2 * s] == (c_indices@[s], aa@[s]));
                                assert(polynomial_values@[pv0.len() + 2 * s + 1] == ((c_indices@[s] + half) as usize, bb@[s]));
                            }
                        }
                    }
                    assert(polynomial_values@ =~= pv0 + frp);
                }
            }
            omega = omega.pow(2);
            offset = offset.pow(2);
            proof {
                lemma_square_power(om, rk, p);
                lemma_square_power(off, rk, p);
            }
            round = round + 1;
        }
        proof {
            assert(self.domain_length_spec() == self.domain_length as nat);
            assert(self.field_spec() == f);
            assert(self.offset_spec().value == off);
            assert(self.omega_spec().value == om);
            assert(self.checks_pass(objs, start, prefix));
        }
        true
    }
}

} // verus!
