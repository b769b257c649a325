//! A transcript with Fiat-Shamir helpers.

use vstd::prelude::*;

use crate::bytes::{copy_bytes, extend_bytes};
use crate::crypto::digest::{shake256, shake256_output};
use crate::crypto::encoding::{decode_list, encode_list, fits_at, list_encoding, Encode};

verus! {

/// Transcript container used by prover and verifier: the objects written so
/// far, how many of them have been read back, and a Fiat-Shamir prefix.
#[derive(Debug)]
pub struct ProofStream<T> {
    objects: Vec<T>,
    read_index: usize,
    prefix: Vec<u8>,
}

impl<T> ProofStream<T> {
    /// The objects in the transcript.
    pub closed spec fn objects_view(&self) -> Seq<T> {
        self.objects@
    }

    /// How many objects have been read.
    pub closed spec fn read_view(&self) -> nat {
        self.read_index as nat
    }

    /// The Fiat-Shamir prefix.
    pub closed spec fn prefix_view(&self) -> Seq<u8> {
        self.prefix@
    }

    /// The read position never passes the end of the transcript.
    pub closed spec fn wf(&self) -> bool {
        self.read_index <= self.objects@.len()
    }

    /// Creates an empty proof stream.
    pub fn new() -> (s: Self)
        ensures
            s.wf(),
            s.objects_view() == Seq::<T>::empty(),
            s.read_view() == 0,
            s.prefix_view() == Seq::<u8>::empty(),
    {
        ProofStream { objects: Vec::new(), read_index: 0, prefix: Vec::new() }
    }

    /// Creates an empty proof stream with a Fiat-Shamir prefix.
    pub fn with_prefix(prefix: Vec<u8>) -> (s: Self)
        ensures
            s.wf(),
            s.objects_view() == Seq::<T>::empty(),
            s.read_view() == 0,
            s.prefix_view() == prefix@,
    {
        ProofStream { objects: Vec::new(), read_index: 0, prefix }
    }

    /// Appends an object to the transcript.
    pub fn push(&mut self, object: T)
        ensures
            final(self).objects_view() == old(self).objects_view().push(object),
            final(self).read_view() == old(self).read_view(),
            final(self).prefix_view() == old(self).prefix_view(),
            old(self).wf() ==> final(self).wf(),
    {
        self.objects.push(object);
    }

    /// Returns the number of objects stored in the transcript.
    pub fn len(&self) -> (n: usize)
        ensures
            n == self.objects_view().len(),
    {
        self.objects.len()
    }

    /// Returns `true` when the transcript is empty.
    pub fn is_empty(&self) -> (b: bool)
        ensures
            b == (self.objects_view().len() == 0),
    {
        self.objects.len() == 0
    }

    /// Constructs a proof stream from an existing object vector.
    pub fn from_objects(objects: Vec<T>) -> (s: Self)
        ensures
            s.wf(),
            s.objects_view() == objects@,
            s.read_view() == 0,
            s.prefix_view() == Seq::<u8>::empty(),
    {
        ProofStream { objects, read_index: 0, prefix: Vec::new() }
    }

    /// Constructs a prefixed proof stream from an existing object vector.
    pub fn from_objects_with_prefix(objects: Vec<T>, prefix: Vec<u8>) -> (s: Self)
        ensures
            s.wf(),
            s.objects_view() == objects@,
            s.read_view() == 0,
            s.prefix_view() == prefix@,
    {
        ProofStream { objects, read_index: 0, prefix }
    }

    /// Consumes the stream and returns its stored objects.
    pub fn into_objects(self) -> (objects: Vec<T>)
        ensures
            objects@ == self.objects_view(),
    {
        self.objects
    }

    /// Returns the Fiat-Shamir prefix.
    pub fn prefix(&self) -> (p: &[u8])
        ensures
            p@ == self.prefix_view(),
    {
        self.prefix.as_slice()
    }
}

impl<T> ProofStream<T> {
    /// Whether an object remains to be read.
    pub(crate) fn has_unread(&self) -> (b: bool)
        ensures
            b == (self.read_view() < self.objects_view().len()),
    {
        self.read_index < self.objects.len()
    }

    /// The next unread object.
    pub(crate) fn peek(&self) -> (object: &T)
        requires
            self.read_view() < self.objects_view().len(),
        ensures
            *object == self.objects_view()[self.read_view() as int],
    {
        &self.objects[self.read_index]
    }

    /// Marks the next object as read.
    pub(crate) fn advance(&mut self)
        requires
            old(self).read_view() < old(self).objects_view().len(),
        ensures
            final(self).read_view() == old(self).read_view() + 1,
            final(self).objects_view() == old(self).objects_view(),
            final(self).prefix_view() == old(self).prefix_view(),
            final(self).wf(),
    {
        let n = self.objects.len();
        assert(self.read_index < n);
        self.read_index = self.read_index + 1;
    }
}

impl<T: Clone> ProofStream<T> {
    /// Reads the next object from the transcript (a clone of it).
    pub fn pull(&mut self) -> (object: T)
        requires
            old(self).read_view() < old(self).objects_view().len(),
        ensures
            cloned(old(self).objects_view()[old(self).read_view() as int], object),
            final(self).read_view() == old(self).read_view() + 1,
            final(self).objects_view() == old(self).objects_view(),
            final(self).prefix_view() == old(self).prefix_view(),
            final(self).wf(),
    {
        let n = self.objects.len();
        assert(self.read_index < n);
        let object = self.objects[self.read_index].clone();
        self.read_index = self.read_index + 1;
        object
    }
}

/// Some transcript encoding starts the byte string.
pub open spec fn transcript_decodable<T: Encode>(bytes: Seq<u8>) -> bool {
    exists|w: Seq<T>| fits_at(#[trigger] list_encoding(w), bytes, 0)
}

/// The bytes hashed for a Fiat-Shamir challenge over the first `n` objects.
pub open spec fn challenge_input<T: Encode>(prefix: Seq<u8>, objects: Seq<T>, n: int) -> Seq<u8> {
    prefix + list_encoding(objects.take(n))
}

/// The verifier's challenges on a transcript read back from the bytes the
/// prover serialized agree with the prover's: after `k` objects are read,
/// the challenge input is the prover's over the first `k` written objects.
pub proof fn lemma_decoded_challenges_agree<T: Encode>(written: Seq<T>, decoded: Seq<T>, prefix: Seq<u8>, k: int)
    requires
        list_encoding(written).len() <= usize::MAX,
        fits_at(list_encoding(decoded), list_encoding(written), 0),
        0 <= k <= written.len(),
    ensures
        decoded.len() == written.len(),
        challenge_input(prefix, decoded, k) == challenge_input(prefix, written, k),
        challenge_input(prefix, decoded, k) == challenge_input(prefix, written.take(k), k),
{
    crate::crypto::encoding::lemma_decoded_list_agrees(written, decoded, k);
    assert(written.take(k).take(k) =~= written.take(k));
}

impl<T: Encode> ProofStream<T> {
    /// Serializes the full transcript: the number of objects as a `u64`,
    /// then each object's encoding.
    pub fn serialize(&self) -> (bytes: Vec<u8>)
        ensures
            bytes@ == list_encoding(self.objects_view()),
    {
        let mut out: Vec<u8> = Vec::new();
        encode_list(self.objects.as_slice(), &mut out);
        out
    }

    /// Reads a transcript from bytes with a Fiat-Shamir prefix; `None` when
    /// no transcript encoding starts the bytes.  Bytes after the transcript
    /// are ignored.
    pub fn try_deserialize_with_prefix(bytes: &[u8], prefix: Vec<u8>) -> (r: Option<Self>)
        ensures
            r is Some <==> transcript_decodable::<T>(bytes@),
            r matches Some(s) ==> {
                &&& s.wf()
                &&& s.read_view() == 0
                &&& s.prefix_view() == prefix@
                &&& fits_at(list_encoding(s.objects_view()), bytes@, 0)
            },
    {
        match decode_list::<T>(bytes, 0) {
            Some((objects, end)) => {
                proof {
                    assert(fits_at(list_encoding(objects@), bytes@, 0));
                }
                Some(ProofStream { objects, read_index: 0, prefix })
            },
            None => None,
        }
    }

    /// Reads a transcript from bytes with a Fiat-Shamir prefix.
    pub fn deserialize_with_prefix(bytes: &[u8], prefix: Vec<u8>) -> (s: Self)
        requires
            transcript_decodable::<T>(bytes@),
        ensures
            s.wf(),
            s.read_view() == 0,
            s.prefix_view() == prefix@,
            fits_at(list_encoding(s.objects_view()), bytes@, 0),
    {
        match Self::try_deserialize_with_prefix(bytes, prefix) {
            Some(s) => s,
            None => {
                proof {
                    assert(false);
                }
                ProofStream::new()
            },
        }
    }

    /// Reads a transcript from bytes.
    pub fn deserialize(bytes: &[u8]) -> (s: Self)
        requires
            transcript_decodable::<T>(bytes@),
        ensures
            s.wf(),
            s.read_view() == 0,
            s.prefix_view() == Seq::<u8>::empty(),
            fits_at(list_encoding(s.objects_view()), bytes@, 0),
    {
        Self::deserialize_with_prefix(bytes, Vec::new())
    }

    /// Fiat-Shamir challenge for the prover: SHAKE256 of the prefix and the
    /// whole transcript.  A shorter challenge drawn from the same transcript
    /// is a prefix of this one.
    pub fn prover_fiat_shamir(&self, num_bytes: usize) -> (r: Vec<u8>)
        ensures
            r@ == shake256_output(
                challenge_input(self.prefix_view(), self.objects_view(), self.objects_view().len() as int),
                num_bytes as nat,
            ),
            r@.len() == num_bytes,
            forall|m: nat|
                m <= num_bytes ==> #[trigger] shake256_output(
                    challenge_input(self.prefix_view(), self.objects_view(), self.objects_view().len() as int),
                    m,
                ) == r@.take(m as int),
    {
        let mut input = copy_bytes(self.prefix.as_slice());
        let serialized = self.serialize();
        extend_bytes(&mut input, serialized.as_slice());
        proof {
            assert(self.objects@.take(self.objects@.len() as int) =~= self.objects@);
        }
        shake256(input.as_slice(), num_bytes)
    }

    /// Fiat-Shamir challenge for the verifier: SHAKE256 of the prefix and
    /// the objects read so far.
    pub fn verifier_fiat_shamir(&self, num_bytes: usize) -> (r: Vec<u8>)
        requires
            self.wf(),
        ensures
            r@ == shake256_output(
                challenge_input(self.prefix_view(), self.objects_view(), self.read_view() as int),
                num_bytes as nat,
            ),
            r@.len() == num_bytes,
            forall|m: nat|
                m <= num_bytes ==> #[trigger] shake256_output(
                    challenge_input(self.prefix_view(), self.objects_view(), self.read_view() as int),
                    m,
                ) == r@.take(m as int),
    {
        let mut input = copy_bytes(self.prefix.as_slice());
        let read = vstd::slice::slice_subrange(self.objects.as_slice(), 0, self.read_index);
        let mut serialized: Vec<u8> = Vec::new();
        encode_list(read, &mut serialized);
        extend_bytes(&mut input, serialized.as_slice());
        proof {
            assert(read@ =~= self.objects@.take(self.read_index as int));
        }
        shake256(input.as_slice(), num_bytes)
    }
}

/// A transcript read back from its serialization holds objects with the
/// same encoding, and serializing it again gives the same bytes.
pub proof fn lemma_serialization_round_trip<T: Encode>(objects: Seq<T>, restored: Seq<T>, bytes: Seq<u8>)
    requires
        bytes == list_encoding(objects),
        bytes.len() <= usize::MAX,
        fits_at(list_encoding(restored), bytes, 0),
    ensures
        list_encoding(restored) == bytes,
{
    assert(bytes.subrange(0, bytes.len() as int) =~= bytes);
    crate::crypto::encoding::lemma_list_prefix_free(objects, restored, bytes, 0);
}

/// A serialized transcript can always be read back.
pub proof fn lemma_serialization_decodable<T: Encode>(objects: Seq<T>)
    ensures
        transcript_decodable::<T>(list_encoding(objects)),
{
    let bytes = list_encoding(objects);
    assert(bytes.subrange(0, bytes.len() as int) =~= bytes);
    assert(fits_at(list_encoding(objects), bytes, 0));
}

/// The verifier, having read as many objects as the prover had written
/// when it drew a challenge, draws the same challenge.
pub proof fn lemma_fiat_shamir_agreement<T: Encode>(
    prefix: Seq<u8>,
    written: Seq<T>,
    transcript: Seq<T>,
    read: int,
    num_bytes: nat,
)
    requires
        0 <= read <= transcript.len(),
        written == transcript.take(read),
    ensures
        shake256_output(challenge_input(prefix, written, written.len() as int), num_bytes)
            == shake256_output(challenge_input(prefix, transcript, read), num_bytes),
{
    assert(written.take(written.len() as int) =~= written);
}

} // verus!
