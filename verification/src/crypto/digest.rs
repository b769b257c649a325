//! The hash functions of the protocol, provided by the `blake2` and `sha3`
//! crates.  Each is a function of its input alone and is given a name
//! below; the wrappers state that their results equal those names.

use vstd::prelude::*;

use blake2::{Blake2b512, Blake2s256, Digest};
use sha3::digest::ExtendableOutput;
use sha3::Shake256;

verus! {

/// The BLAKE2b-512 digest of a byte string.
pub uninterp spec fn blake2b512_digest(data: Seq<u8>) -> Seq<u8>;

/// The BLAKE2s-256 digest of a byte string.
pub uninterp spec fn blake2s256_digest(data: Seq<u8>) -> Seq<u8>;

/// The first `n` bytes of the SHAKE256 output stream for a byte string.
pub uninterp spec fn shake256_output(data: Seq<u8>, n: nat) -> Seq<u8>;

/// Calls `<Blake2b512 as Digest>::digest` on `data`.  Trusted: the result is
/// the named digest of `data` and is 64 bytes long (the output size of
/// BLAKE2b-512).
#[verifier::external_body]
pub(crate) fn blake2b512(data: &[u8]) -> (r: Vec<u8>)
    ensures
        r@ == blake2b512_digest(data@),
        r@.len() == 64,
{
    Blake2b512::digest(data).to_vec()
}

/// Calls `<Blake2s256 as Digest>::digest` on `data`.  Trusted: the result is
/// the named digest of `data` and is 32 bytes long (the output size of
/// BLAKE2s-256).
#[verifier::external_body]
pub(crate) fn blake2s256(data: &[u8]) -> (r: Vec<u8>)
    ensures
        r@ == blake2s256_digest(data@),
        r@.len() == 32,
{
    Blake2s256::digest(data).to_vec()
}

/// Calls `<Shake256 as ExtendableOutput>::digest_xof` on `data` with an
/// output buffer of `num_bytes` bytes.  Trusted: the buffer it fills is the
/// named output prefix, of the requested length; and, SHAKE256 being an
/// extendable-output function read from the start of one output stream,
/// every shorter output prefix is the start of this buffer.
#[verifier::external_body]
pub(crate) fn shake256(data: &[u8], num_bytes: usize) -> (r: Vec<u8>)
    ensures
        r@ == shake256_output(data@, num_bytes as nat),
        r@.len() == num_bytes,
        forall|m: nat| m <= num_bytes ==> #[trigger] shake256_output(data@, m) == r@.take(m as int),
{
    let mut output = vec![0u8; num_bytes];
    Shake256::digest_xof(data, &mut output);
    output
}

} // verus!
