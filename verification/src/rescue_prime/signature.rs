//! RPSSS: a signature scheme whose signatures are STARK proofs of
//! knowing a Rescue-Prime preimage of the public key, bound to the
//! document through the Fiat-Shamir prefix.

use vstd::prelude::*;
use vstd::arithmetic::power2::*;

use crate::crypto::digest::{blake2s256, blake2s256_digest};
use crate::crypto::encoding::list_encoding;
use crate::field::{Field, FieldElement, MAIN_PRIME};
use crate::rescue_prime::{elements_over, RescuePrime};
use crate::polynomial::multivariate::MPolynomial;
use crate::polynomial::Polynomial;
use crate::stark::item::{StarkProofItem, StarkProofStream};
use crate::stark::openings::Openings;
use crate::stark::params::{bits_of, boundary_points, sizes_fit, Stark};
use crate::stark::prover::{os_random_bytes, powers, powers_distinct, proof_layout, rows_over};
use crate::polynomial::distinct_points;

verus! {

/// Rescue-Prime STARK-based signature scheme.
#[derive(Debug)]
pub struct RPSSS {
    field: Field,
    rp: RescuePrime,
    stark: Stark,
}

/// A transcript whose Fiat-Shamir prefix is the BLAKE2s-256 digest of the
/// document, which binds a proof to it.
pub fn signature_proof_stream(document: &[u8]) -> (s: StarkProofStream)
    ensures
        s.wf(),
        s.objects_view() == Seq::<StarkProofItem>::empty(),
        s.read_view() == 0,
        s.prefix_view() == blake2s256_digest(document@),
{
    StarkProofStream::with_prefix(blake2s256(document))
}

impl RPSSS {
    /// The STARK parameters fit the Rescue-Prime trace.
    #[verifier::type_invariant]
    pub closed spec fn inv(self) -> bool {
        &&& self.field.p == MAIN_PRIME
        &&& self.rp.field_spec() == self.field
        &&& self.stark.field_spec() == self.field
        &&& self.stark.num_registers_spec() == 2
        &&& self.stark.num_randomizers_spec() == 256
        &&& self.stark.trace_length_spec() == 28
    }

    /// The hash.
    pub closed spec fn rescue_prime_spec(&self) -> RescuePrime {
        self.rp
    }

    /// The STARK instance.
    pub closed spec fn stark_spec(&self) -> Stark {
        self.stark
    }

    /// From `base` on, `objs` proves, under the Fiat-Shamir prefix
    /// `prefix`, the Rescue-Prime trace of hashing `input`: with the
    /// transition constraints of the Rescue-Prime AIR, the boundary of the
    /// hash, and some appended rows and randomizer coefficients of the sizes
    /// the prover draws.
    pub open spec fn proves_preimage(&self, input: FieldElement, objs: Seq<StarkProofItem>, base: int, prefix: Seq<u8>) -> bool {
        exists|trace: Seq<Vec<FieldElement>>, cs: Seq<MPolynomial>, extra: Seq<Vec<FieldElement>>, coefficients: Seq<FieldElement>|
            #![trigger self.stark_spec().proves_trace(objs, base, prefix, trace, cs, self.rescue_prime_spec().boundary_spec(self.rescue_prime_spec().hash_spec(input)), extra, coefficients)]
            {
                &&& trace.len() == 28
                &&& forall|k: int| 0 <= k < 28 ==> (#[trigger] trace[k])@ == self.rescue_prime_spec().state_after(input, k as nat)
                &&& self.rescue_prime_spec().is_rescue_air(cs, self.stark_spec().omicron_spec())
                &&& self.stark_spec().proves_trace(
                    objs,
                    base,
                    prefix,
                    trace,
                    cs,
                    self.rescue_prime_spec().boundary_spec(self.rescue_prime_spec().hash_spec(input)),
                    extra,
                    coefficients,
                )
            }
    }

    /// Proving knowledge of a preimage of `input`'s hash fails: the first
    /// 27 powers of omicron coincide; or, for the Rescue-Prime transition
    /// constraints, the AIR does not meet the STARK's requirements, a
    /// register has as many boundary points as the randomized trace has
    /// rows, or proving the trace of hashing `input` fails with some
    /// appended rows and randomizer coefficients of the kind the prover
    /// draws.
    pub open spec fn preimage_proof_fails(&self, input: FieldElement) -> bool {
        let rp = self.rescue_prime_spec();
        let st = self.stark_spec();
        let omicron = st.omicron_spec();
        let boundary = rp.boundary_spec(rp.hash_spec(input));
        ||| !distinct_points(powers(omicron, 27))
        ||| exists|cs: Seq<MPolynomial>|
            #[trigger] rp.is_rescue_air(cs, omicron) && {
                ||| !st.air_ok(cs, boundary)
                ||| !(forall|r: nat|
                    r < st.num_registers_spec() ==> (#[trigger] boundary_points(boundary, r, omicron)).len() < 28
                        + st.num_randomizers_spec())
                ||| exists|trace: Seq<Vec<FieldElement>>, extra: Seq<Vec<FieldElement>>, coefficients: Seq<FieldElement>|
                    #[trigger] st.proving_fails_with(trace, cs, boundary, extra, coefficients) && trace.len() == 28
                        && forall|k: int| 0 <= k < 28 ==> (#[trigger] trace[k])@ == rp.state_after(input, k as nat)
            }
    }

    /// The checks the verifier makes on a proof of knowing a preimage of
    /// `output`: the first 27 powers of omicron are distinct, and for the
    /// Rescue-Prime transition constraints the AIR meets the STARK's
    /// requirements and the STARK verifier's checks pass.
    pub open spec fn preimage_checks_pass(&self, output: FieldElement, proof: Seq<u8>, prefix: Seq<u8>) -> bool {
        &&& distinct_points(powers(self.stark_spec().omicron_spec(), 27))
        &&& forall|cs: Seq<MPolynomial>|
            #[trigger] self.rescue_prime_spec().is_rescue_air(cs, self.stark_spec().omicron_spec()) ==> {
                &&& self.stark_spec().air_ok(cs, self.rescue_prime_spec().boundary_spec(output))
                &&& self.stark_spec().verifier_accepts(cs, self.rescue_prime_spec().boundary_spec(output), proof, prefix)
            }
    }

    /// `proof`, with the Fiat-Shamir prefix `prefix`, is accepted by a run
    /// of the STARK verifier for the Rescue-Prime transition constraints
    /// and the boundary of hashing to `output`.
    pub open spec fn accepts_preimage_proof(&self, output: FieldElement, proof: Seq<u8>, prefix: Seq<u8>) -> bool {
        exists|
            cs: Seq<MPolynomial>,
            objs: Seq<StarkProofItem>,
            queried: Seq<usize>,
            values: Seq<FieldElement>,
            leaves: Seq<Openings>,
            randomizer: Openings,
            zerofiers: Seq<Polynomial>,
            interpolants: Seq<Polynomial>,
            transition_zerofier: Polynomial,
            transition_bounds: Seq<usize>,
            boundary_bounds: Seq<usize>,
        |
            #![trigger self.stark_spec().run_accepts(cs, self.rescue_prime_spec().boundary_spec(output), proof, prefix, objs, queried, values, leaves, randomizer, zerofiers, interpolants, transition_zerofier, transition_bounds, boundary_bounds)]
            self.rescue_prime_spec().is_rescue_air(cs, self.stark_spec().omicron_spec()) && self.stark_spec().run_accepts(
                cs,
                self.rescue_prime_spec().boundary_spec(output),
                proof,
                prefix,
                objs,
                queried,
                values,
                leaves,
                randomizer,
                zerofiers,
                interpolants,
                transition_zerofier,
                transition_bounds,
                boundary_bounds,
            )
    }

    /// Creates the signature scheme over a Rescue-Prime instance: expansion
    /// factor 4, 64 colinearity checks, security level 128, one register
    /// per state entry, one cycle per round plus the input, constraint
    /// degree 3.
    pub fn new(rp: RescuePrime) -> (s: RPSSS)
        ensures
            s.rescue_prime_spec() == rp,
            s.stark_spec().num_registers_spec() == 2,
            s.stark_spec().trace_length_spec() == 28,
            s.stark_spec().num_randomizers_spec() == 256,
            s.stark_spec().security_level_spec() == 128,
    {
        proof {
            use_type_invariant(&rp);
            rp.lemma_inv();
        }
        let field = Field::main();
        let num_cycles = rp.rounds() + 1;
        let state_width = rp.state_width();
        proof {
            reveal_with_fuel(bits_of, 12);
            assert(bits_of(852) == 10);
            lemma2_to64();
            assert(sizes_fit(4, 64, 28, 3));
            assert(is_pow2(4)) by {
                reveal(is_pow2);
                assert(is_pow2(1));
                assert(is_pow2(2));
            }
        }
        let stark = Stark::new(field, 4, 64, 128, state_width, num_cycles, 3);
        RPSSS { field, rp, stark }
    }

    /// Produces a STARK proof of knowing a preimage of the hash of
    /// `input_element` into a caller-provided transcript.  `None` when the
    /// prover gives none (see [`Stark::prove_with_stream`]) or the
    /// constraints do not fit the STARK.
    pub fn stark_prove(&self, input_element: &FieldElement, proof_stream: &mut StarkProofStream) -> (r: Option<Vec<u8>>)
        requires
            input_element.wf(),
            input_element.field.p == MAIN_PRIME,
        ensures
            final(proof_stream).prefix_view() == old(proof_stream).prefix_view(),
            final(proof_stream).read_view() == old(proof_stream).read_view(),
            final(proof_stream).objects_view().take(old(proof_stream).objects_view().len() as int)
                == old(proof_stream).objects_view(),
            r matches Some(bytes) ==> bytes@ == list_encoding(final(proof_stream).objects_view()),
            r is Some ==> proof_layout(
                final(proof_stream).objects_view(),
                old(proof_stream).objects_view().len() as int,
                2,
                self.stark_spec().fri_spec().domain_length_spec(),
                self.stark_spec().expansion_spec(),
            ),
            r is None ==> self.preimage_proof_fails(*input_element),
            r is Some ==> self.proves_preimage(
                *input_element,
                final(proof_stream).objects_view(),
                old(proof_stream).objects_view().len() as int,
                old(proof_stream).prefix_view(),
            ),
    {
        proof {
            use_type_invariant(self);
            use_type_invariant(&self.stark);
            self.stark.lemma_inv();
        }
        let output = self.rp.hash(input_element);
        let trace = self.rp.trace(input_element);
        let omicron = *self.stark.omicron();
        if !powers_distinct(&omicron, 27) {
            return None;
        }
        let constraints = self.rp.transition_constraints(&omicron);
        let boundary = self.rp.boundary_constraints(&output);
        if !self.stark.check_air(constraints.as_slice(), boundary.as_slice()) {
            proof {
                assert(self.rescue_prime_spec().is_rescue_air(constraints@, omicron));
            }
            return None;
        }
        if !self.stark.boundary_counts_below(boundary.as_slice(), trace.len() + self.stark.num_randomizers()) {
            proof {
                assert(self.rescue_prime_spec().is_rescue_air(constraints@, omicron));
            }
            return None;
        }
        proof {
            assert forall|i: int| 0 <= i < trace@.len() implies (#[trigger] trace@[i]@).len() >= 2 by {
                assert(trace@[i]@.len() == 2);
            }
            assert forall|i: int, k: int| 0 <= i < trace@.len() && 0 <= k < 2 implies (#[trigger] trace@[i]@[k]).wf()
                && trace@[i]@[k].field == self.field by {
                assert(elements_over(trace@[i]@, self.field));
            }
            assert(rows_over(trace@, 2, self.field));
        }
        let ghost base = proof_stream.objects_view().len() as int;
        let ghost prefix0 = proof_stream.prefix_view();
        let r = self.stark.prove_with_stream(trace.as_slice(), constraints.as_slice(), boundary.as_slice(), proof_stream);
        proof {
            if r is Some {
                let objs = proof_stream.objects_view();
                let (extra, coefficients) = choose|extra: Seq<Vec<FieldElement>>, coefficients: Seq<FieldElement>|
                    #[trigger] self.stark.proves_trace(objs, base, prefix0, trace@, constraints@, boundary@, extra, coefficients);
                assert(self.stark_spec().proves_trace(
                    objs,
                    base,
                    prefix0,
                    trace@,
                    constraints@,
                    self.rescue_prime_spec().boundary_spec(self.rescue_prime_spec().hash_spec(*input_element)),
                    extra,
                    coefficients,
                ));
                assert(self.proves_preimage(*input_element, objs, base, prefix0));
            } else {
                let (extra, coefficients) = choose|extra: Seq<Vec<FieldElement>>, coefficients: Seq<FieldElement>|
                    #[trigger] self.stark.proving_fails_with(trace@, constraints@, boundary@, extra, coefficients);
                assert(self.stark_spec().proving_fails_with(trace@, constraints@, boundary@, extra, coefficients));
                assert(self.rescue_prime_spec().is_rescue_air(constraints@, omicron));
            }
        }
        r
    }

    /// Verifies a STARK proof of knowing a preimage of `output_element`,
    /// with the Fiat-Shamir prefix of a template transcript.
    pub fn stark_verify(&self, output_element: &FieldElement, stark_proof: &[u8], proof_stream: &StarkProofStream) -> (ok: bool)
        ensures
            self.preimage_checks_pass(*output_element, stark_proof@, proof_stream.prefix_view()) ==> ok,
            ok ==> self.accepts_preimage_proof(*output_element, stark_proof@, proof_stream.prefix_view()),
    {
        proof {
            use_type_invariant(self);
            use_type_invariant(&self.stark);
            self.stark.lemma_inv();
        }
        let omicron = *self.stark.omicron();
        if !powers_distinct(&omicron, 27) {
            return false;
        }
        let boundary = self.rp.boundary_constraints(output_element);
        let constraints = self.rp.transition_constraints(&omicron);
        proof {
            assert(self.rescue_prime_spec().is_rescue_air(constraints@, self.stark_spec().omicron_spec()));
        }
        if !self.stark.check_air(constraints.as_slice(), boundary.as_slice()) {
            return false;
        }
        let ok = self.stark.verify_with_stream(stark_proof, constraints.as_slice(), boundary.as_slice(), proof_stream);
        proof {
            if ok {
                let cs = constraints@;
                let prefix = proof_stream.prefix_view();
                let (objs, queried, values, leaves, randomizer, zerofiers, interpolants, tz, tb, bb) = choose|
                    objs: Seq<StarkProofItem>,
                    queried: Seq<usize>,
                    values: Seq<FieldElement>,
                    leaves: Seq<Openings>,
                    randomizer: Openings,
                    zerofiers: Seq<Polynomial>,
                    interpolants: Seq<Polynomial>,
                    tz: Polynomial,
                    tb: Seq<usize>,
                    bb: Seq<usize>,
                |
                    self.stark.run_accepts(
                        cs,
                        boundary@,
                        stark_proof@,
                        prefix,
                        objs,
                        queried,
                        values,
                        leaves,
                        randomizer,
                        zerofiers,
                        interpolants,
                        tz,
                        tb,
                        bb,
                    );
                assert(self.rescue_prime_spec().is_rescue_air(cs, self.stark_spec().omicron_spec()));
                assert(self.stark_spec().run_accepts(
                    cs,
                    self.rescue_prime_spec().boundary_spec(*output_element),
                    stark_proof@,
                    prefix,
                    objs,
                    queried,
                    values,
                    leaves,
                    randomizer,
                    zerofiers,
                    interpolants,
                    tz,
                    tb,
                    bb,
                ));
            }
        }
        ok
    }

    /// Generates a secret key, drawn from operating-system randomness, and
    /// its public key, the hash of the secret key.  `None` when the random
    /// source fails.
    pub fn keygen(&self) -> (r: Option<(FieldElement, FieldElement)>)
        ensures
            r matches Some((sk, pk)) ==> sk.wf() && sk.field.p == MAIN_PRIME && pk == self.rescue_prime_spec().hash_spec(sk),
    {
        proof {
            use_type_invariant(self);
        }
        let bytes = match os_random_bytes(17) {
            Some(b) => b,
            None => {
                return None;
            },
        };
        let secret_key = self.field.sample(bytes.as_slice());
        let public_key = self.rp.hash(&secret_key);
        Some((secret_key, public_key))
    }

    /// Signs a document: a STARK proof of knowing the secret key, in a
    /// transcript prefixed with the document's digest.
    pub fn sign(&self, secret_key: &FieldElement, document: &[u8]) -> (r: Option<Vec<u8>>)
        requires
            secret_key.wf(),
            secret_key.field.p == MAIN_PRIME,
        ensures
            r is None ==> self.preimage_proof_fails(*secret_key),
            r matches Some(bytes) ==> exists|objs: Seq<StarkProofItem>|
                bytes@ == list_encoding(objs) && proof_layout(objs, 0, 2, self.stark_spec().fri_spec().domain_length_spec(), self.stark_spec().expansion_spec())
                    && self.proves_preimage(*secret_key, objs, 0, blake2s256_digest(document@)),
    {
        let mut stream = signature_proof_stream(document);
        let r = self.stark_prove(secret_key, &mut stream);
        proof {
            if r is Some {
                let objs = stream.objects_view();
                assert(r->0@ == list_encoding(objs) && proof_layout(objs, 0, 2, self.stark_spec().fri_spec().domain_length_spec(), self.stark_spec().expansion_spec())
                    && self.proves_preimage(*secret_key, objs, 0, blake2s256_digest(document@)));
            }
        }
        r
    }

    /// Verifies a document's signature against a public key.
    pub fn verify(&self, public_key: &FieldElement, document: &[u8], signature: &[u8]) -> (ok: bool)
        ensures
            self.preimage_checks_pass(*public_key, signature@, blake2s256_digest(document@)) ==> ok,
            ok ==> self.accepts_preimage_proof(*public_key, signature@, blake2s256_digest(document@)),
    {
        let stream = signature_proof_stream(document);
        self.stark_verify(public_key, signature, &stream)
    }

    /// Returns the underlying Rescue-Prime instance.
    pub fn rescue_prime(&self) -> (rp: &RescuePrime)
        ensures
            *rp == self.rescue_prime_spec(),
    {
        &self.rp
    }
}

} // verus!
