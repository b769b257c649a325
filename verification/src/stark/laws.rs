//! What holds between the prover's transcripts and the verifier's checks.

use vstd::prelude::*;
use vstd::arithmetic::power2::*;

use crate::crypto::merkle::lemma_commit_open_verify;
use crate::field::FieldElement;
use crate::fri::codeword_leaves;
use crate::stark::item::StarkProofItem;
use crate::stark::prover::{layout_with, opens_at};
use crate::stark::params::Stark;
use crate::stark::verify::{authenticates_at, dup_positions, root_bytes};

verus! {

/// An opening of a committed codeword authenticates against the root that
/// commits to it.
pub proof fn lemma_opening_authenticates(items: Seq<StarkProofItem>, at: int, c: Seq<FieldElement>, index: int)
    requires
        opens_at(items, at, c, index),
        is_pow2(c.len() as int),
        c.len() >= 2,
        0 <= index < c.len(),
    ensures
        authenticates_at(items, at, crate::fri::codeword_root(c), index),
{
    let data = codeword_leaves(c);
    lemma_commit_open_verify(index as nat, data);
    assert(data[index] == crate::field::element::decimal_digits(c[index].value as nat));
}

/// Every opening that the prover writes passes the verifier's Merkle
/// check: each element opened from a boundary quotient codeword
/// authenticates, at its position, against that register's root, and
/// each element opened from the randomizer codeword against the
/// randomizer's root.
pub proof fn lemma_prover_openings_authenticate(
    objs: Seq<StarkProofItem>,
    base: int,
    registers: nat,
    d: nat,
    step: nat,
    bcs: Seq<Seq<FieldElement>>,
    rc: Seq<FieldElement>,
    queried: Seq<usize>,
    dup: Seq<usize>,
)
    requires
        layout_with(objs, base, registers, d, step, bcs, rc, queried, dup),
        is_pow2(d as int),
        d >= 2,
    ensures
        forall|r: int, j: int|
            0 <= r < registers && 0 <= j < dup.len() ==> authenticates_at(
                objs,
                base + registers + 2 + 2 * (r * dup.len()) + 2 * j,
                root_bytes(#[trigger] objs[base + r]),
                #[trigger] dup[j] as int,
            ),
        forall|j: int|
            0 <= j < queried.len() ==> authenticates_at(
                objs,
                base + registers + 2 + 2 * (registers * dup.len()) + 2 * j,
                root_bytes(objs[base + registers]),
                #[trigger] queried[j] as int,
            ),
{
    assert forall|r: int, j: int|
        0 <= r < registers && 0 <= j < dup.len() implies authenticates_at(
            objs,
            base + registers + 2 + 2 * (r * dup.len()) + 2 * j,
            root_bytes(#[trigger] objs[base + r]),
            #[trigger] dup[j] as int,
        ) by {
        let at = base + registers + 2 + 2 * (r * dup.len()) + 2 * j;
        assert(opens_at(objs, at, bcs[r], dup[j] as int));
        lemma_opening_authenticates(objs, at, bcs[r], dup[j] as int);
        assert(crate::stark::prover::is_boundary_root_of(objs[base + r], bcs[r]));
    }
    assert forall|j: int| 0 <= j < queried.len() implies authenticates_at(
        objs,
        base + registers + 2 + 2 * (registers * dup.len()) + 2 * j,
        root_bytes(objs[base + registers]),
        #[trigger] queried[j] as int,
    ) by {
        let at = base + registers + 2 + 2 * (registers * dup.len()) + 2 * j;
        lemma_opening_authenticates(objs, at, rc, queried[j] as int);
    }
}

/// A transcript that the prover lays out passes every check of the
/// verifier on roots and openings: with the positions it queried, the
/// roots have the kinds the verifier reads and every opening
/// authenticates, at its position, against the root it belongs to.
pub proof fn lemma_prover_transcript_openings_pass(
    stark: Stark,
    objs: Seq<StarkProofItem>,
    bcs: Seq<Seq<FieldElement>>,
    rc: Seq<FieldElement>,
    queried: Seq<usize>,
    dup: Seq<usize>,
)
    requires
        stark.inv(),
        layout_with(
            objs,
            0,
            stark.num_registers_spec(),
            stark.fri_spec().domain_length_spec(),
            stark.expansion_spec(),
            bcs,
            rc,
            queried,
            dup,
        ),
    ensures
        stark.transcript_openings_ok(objs, queried),
{
    stark.lemma_inv();
    let registers = stark.num_registers_spec();
    let d = stark.fri_spec().domain_length_spec();
    let step = stark.expansion_spec();
    assert(d >= 2) by {
        assert(stark.omicron_domain_spec().len() * stark.expansion_spec() >= 4) by (nonlinear_arith)
            requires
                stark.omicron_domain_spec().len() >= 1,
                stark.expansion_spec() >= 4,
        ;
    }
    lemma_prover_openings_authenticate(objs, 0, registers, d, step, bcs, rc, queried, dup);
    let dp = dup_positions(queried, step, d);
    assert forall|j: int| 0 <= j < dup.len() implies #[trigger] dp[j] == dup[j] as int by {
        assert(dup.map_values(|u: usize| u as int)[j] == dp[j]);
    }
    assert forall|r: int| 0 <= r < registers implies (#[trigger] objs[r]) is BoundaryQuotientRoot by {
        assert(crate::stark::prover::is_boundary_root_of(objs[0 + r], bcs[r]));
    }
    assert forall|r: int, j: int|
        0 <= r < registers && 0 <= j < 2 * queried.len() implies authenticates_at(
            objs,
            registers + 2 + 2 * (r * (2 * queried.len())) + 2 * j,
            root_bytes(#[trigger] objs[r]),
            #[trigger] dp[j],
        ) by {
        assert(dp[j] == dup[j] as int);
        assert(objs[0 + r] == objs[r]);
    }
}

} // verus!
