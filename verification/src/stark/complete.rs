//! What the verifier makes of an honest STARK proof: the FRI proof it
//! carries passes the FRI verifier's checks, read back from its bytes.

use vstd::prelude::*;
use vstd::arithmetic::div_mod::*;
use vstd::arithmetic::power::*;
use vstd::arithmetic::power2::*;

use crate::crypto::encoding::{fits_at, list_encoding};
use crate::crypto::proof_stream::{challenge_input, lemma_decoded_challenges_agree};
use crate::field::prime::is_prime;
use crate::field::FieldElement;
use crate::fri::honest::{challenge_avoids, lemma_fri_complete_decoded};
use crate::fri::{fold_point, verifier_top, FriProofItem};
use crate::polynomial::multivariate::MPolynomial;
use crate::polynomial::poly_eval;
use crate::polynomial::roots::{lemma_eval_horner, lemma_horner_congruent_point};
use crate::stark::item::StarkProofItem;
use crate::stark::params::{BoundaryConstraint, Stark};
use crate::stark::prover::{fri_codeword, fri_item_proves};
use crate::stark::verify::fri_bytes_of;

verus! {

/// The FRI codeword of a polynomial holds its values at the points
/// `offset · omega^i`, up to the modulus.
proof fn lemma_fri_codeword_values(q: Seq<FieldElement>, stark: Stark, i: int)
    requires
        0 <= i < stark.fri_spec().domain_length_spec(),
        stark.fri_spec().field_spec().p > 0,
    ensures
        fri_codeword(q, stark.fri_spec())[i].value == poly_eval(
            q,
            fold_point(stark.fri_spec().offset_spec().value as int, stark.fri_spec().omega_spec().value as int, 0, i),
        ) % (stark.fri_spec().field_spec().p as int),
{
    let fri = stark.fri_spec();
    let f = fri.field_spec();
    let p = f.p as int;
    let off = fri.offset_spec().value as int;
    let om = fri.omega_spec().value as int;
    let x = off * pow(om, i as nat);
    lemma2_to64();
    lemma_pow1(off);
    assert(pow2(0) * (i as nat) == i as nat);
    assert(fold_point(off, om, 0, i) == x);
    lemma_mod_bound(x, p);
    lemma_mod_twice(x, p);
    lemma_eval_horner(q, x, q.len());
    lemma_eval_horner(q, x % p, q.len());
    lemma_horner_congruent_point(Seq::new(q.len(), |k: int| crate::polynomial::coeff(q, k)), x % p, x, p);
}

/// The FRI part of completeness for the STARK: when `objs` proves a trace
/// from `base` on under the Fiat-Shamir prefix `prefix` (as the prover
/// promises for what it writes), every FRI transcript decoded from the
/// bytes of its FRI proof object passes the FRI verifier's checks.  The
/// conditions are those of FRI completeness: a prime field, an invertible
/// offset, `omega^(d/2) = −1`, at least one round, a power-of-two
/// expansion factor `e`, a last layer below `2^30` elements, a combination
/// with at most `d / e` coefficients, and hashing that yields as many
/// sampled indices as tests and no challenge on a domain point it is
/// tested against.
pub proof fn lemma_embedded_fri_accepted(
    stark: Stark,
    objs: Seq<StarkProofItem>,
    base: int,
    prefix: Seq<u8>,
    trace: Seq<Vec<FieldElement>>,
    constraints: Seq<MPolynomial>,
    boundary: Seq<BoundaryConstraint>,
    extra: Seq<Vec<FieldElement>>,
    coefficients: Seq<FieldElement>,
    decoded: Seq<FriProofItem>,
)
    requires
        stark.proves_trace(objs, base, prefix, trace, constraints, boundary, extra, coefficients),
        objs[base + stark.num_registers_spec() + 1] is FriProof,
        fits_at(list_encoding(decoded), fri_bytes_of(objs[base + stark.num_registers_spec() + 1]), 0),
        is_prime(stark.fri_spec().field_spec().p as int),
        stark.fri_spec().field_spec().p > 2,
        stark.fri_spec().offset_spec().value as int % (stark.fri_spec().field_spec().p as int) != 0,
        stark.fri_spec().omega_spec().value as int % (stark.fri_spec().field_spec().p as int) != 0,
        pow(stark.fri_spec().omega_spec().value as int, stark.fri_spec().domain_length_spec() / 2) % (
        stark.fri_spec().field_spec().p as int) == stark.fri_spec().field_spec().p - 1,
        stark.fri_spec().rounds_spec() >= 1,
        is_pow2(stark.fri_spec().expansion_spec() as int),
        stark.fri_spec().domain_length_spec() / pow2((stark.fri_spec().rounds_spec() - 1) as nat) <= 0x3fff_ffff,
        stark.combination_poly_spec(objs, base, prefix, trace, constraints, boundary, extra, coefficients).len()
            * stark.fri_spec().expansion_spec() <= stark.fri_spec().domain_length_spec(),
        stark.fri_spec().rounds_spec() > 1 ==> {
            let fri = stark.fri_spec();
            let top = verifier_top(decoded, 0, prefix, fri.rounds_spec(), fri.tests_spec(), fri.domain_length_spec());
            &&& top.len() == fri.tests_spec()
            &&& forall|rd: int, s: int|
                0 <= rd < fri.rounds_spec() - 1 && 0 <= s < fri.tests_spec() ==> #[trigger] challenge_avoids(
                    fri,
                    decoded,
                    0,
                    prefix,
                    top,
                    rd,
                    s,
                )
        },
    ensures
        stark.fri_spec().checks_pass(decoded, 0, prefix),
{
    let fri = stark.fri_spec();
    let rr = stark.num_registers_spec();
    let r = fri.rounds_spec();
    let t = fri.tests_spec();
    let d = fri.domain_length_spec();
    let comb = stark.combination_poly_spec(objs, base, prefix, trace, constraints, boundary, extra, coefficients);
    let codeword = fri_codeword(comb, fri);
    let item = objs[base + rr + 1];
    assert(stark.fri_proof_of(objs, base, prefix, comb));
    let (indices, bcs, rc, queried, dup) = choose|
        indices: Seq<usize>,
        bcs: Seq<Seq<FieldElement>>,
        rc: Seq<FieldElement>,
        queried: Seq<usize>,
        dup: Seq<usize>,
    |
        #![trigger crate::stark::prover::layout_with(objs, base, rr, d, stark.expansion_spec(), bcs, rc, queried, dup), fri_item_proves(fri, objs[base + rr + 1], prefix, fri_codeword(comb, fri), indices)]
        {
            &&& forall|i: int| 0 <= i < comb.len() ==> (#[trigger] comb[i]).value < fri.field_spec().p
            &&& fri_item_proves(fri, objs[base + rr + 1], prefix, fri_codeword(comb, fri), indices)
            &&& crate::stark::prover::layout_with(objs, base, rr, d, stark.expansion_spec(), bcs, rc, queried, dup)
            &&& crate::stark::prover::ascending(queried)
            &&& queried.to_multiset() == (indices + crate::stark::prover::offset_all(indices, (d / 2) as usize)).to_multiset()
        };
    assert(fri_item_proves(fri, item, prefix, codeword, indices));
    reveal(fri_item_proves);
    let (fobjs, cws) = choose|fobjs: Seq<FriProofItem>, cws: Seq<Seq<FieldElement>>|
        #![trigger crate::fri::commits_layers(fobjs, 0, prefix, codeword, cws, r, fri.field_spec(), fri.offset_spec().value as int, fri.omega_spec().value as int)]
        {
            &&& item matches StarkProofItem::FriProof(b) && b@ == list_encoding(fobjs)
            &&& crate::fri::commits_layers(
                fobjs,
                0,
                prefix,
                codeword,
                cws,
                r,
                fri.field_spec(),
                fri.offset_spec().value as int,
                fri.omega_spec().value as int,
            )
            &&& fobjs.len() >= r + 1
            &&& indices.len() <= t
            &&& (r <= 1 ==> indices.len() == 0)
            &&& (r > 1 && indices.len() == t ==> crate::fri::queries_written(fobjs, 0, cws, indices, r, t) && fobjs.len()
                == r + 1 + (r - 1) * (4 * t))
            &&& (r > 1 ==> indices == crate::fri::kept_indices(
                crate::crypto::digest::shake256_output(challenge_input(prefix, fobjs, (r + 1) as int), 32),
                d / 2,
                d / pow2((r - 1) as nat),
                t,
                usize::MAX as nat,
            ))
        };
    let bytes = fri_bytes_of(item);
    assert(bytes == list_encoding(fobjs));
    assert(bytes.len() <= usize::MAX) by {
        match item {
            StarkProofItem::FriProof(b) => {
                assert(b@.len() == b.len());
            },
            _ => {},
        }
    }
    assert forall|i: int| 0 <= i < codeword.len() implies (#[trigger] codeword[i]).value == poly_eval(
        comb,
        fold_point(fri.offset_spec().value as int, fri.omega_spec().value as int, 0, i),
    ) % (fri.field_spec().p as int) by {
        lemma_fri_codeword_values(comb, stark, i);
    }
    if r > 1 {
        lemma_decoded_challenges_agree(fobjs, decoded, prefix, (r + 1) as int);
        lemma2_to64();
        assert(d / pow2(1) == d / 2);
        let top = verifier_top(decoded, 0, prefix, r, t, d);
        assert(top == verifier_top(fobjs, 0, prefix, r, t, d));
        assert(indices == top);
        assert forall|rd: int, s: int| 0 <= rd < r - 1 && 0 <= s < t implies #[trigger] challenge_avoids(
            fri,
            fobjs,
            0,
            prefix,
            indices,
            rd,
            s,
        ) by {
            assert(challenge_avoids(fri, decoded, 0, prefix, top, rd, s));
            lemma_decoded_challenges_agree(fobjs, decoded, prefix, 0 + rd + 1);
        }
    }
    lemma_fri_complete_decoded(fri, fobjs, decoded, prefix, codeword, cws, indices, comb);
}

} // verus!
