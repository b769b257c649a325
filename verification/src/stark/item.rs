//! The objects of a STARK transcript and their binary encoding.

use vstd::prelude::*;
use vstd::bytes::spec_u32_to_le_bytes;

use crate::crypto::encoding::{
    blob_encoding, decode_list, encode_list, encode_tag, fits_at, lemma_blob_prefix_free,
    lemma_list_prefix_free, lemma_same_width, lemma_tag_at, lemma_tagged_body, lemma_tags_agree,
    list_encoding, read_u32, Encode,
};
use crate::crypto::ProofStream;
use crate::field::FieldElement;

verus! {

/// Top-level proof stream items used by the STARK protocol.
#[derive(Debug)]
pub enum StarkProofItem {
    BoundaryQuotientRoot(Vec<u8>),
    RandomizerRoot(Vec<u8>),
    FriProof(Vec<u8>),
    FieldElement(FieldElement),
    AuthenticationPath(Vec<Vec<u8>>),
}

/// A proof stream specialized for STARK proofs.
pub type StarkProofStream = ProofStream<StarkProofItem>;

/// The tag of an item's encoding.
pub open spec fn stark_item_tag(item: StarkProofItem) -> u32 {
    match item {
        StarkProofItem::BoundaryQuotientRoot(_) => 0,
        StarkProofItem::RandomizerRoot(_) => 1,
        StarkProofItem::FriProof(_) => 2,
        StarkProofItem::FieldElement(_) => 3,
        StarkProofItem::AuthenticationPath(_) => 4,
    }
}

/// The body of an item's encoding, after its tag.
pub open spec fn stark_item_body(item: StarkProofItem) -> Seq<u8> {
    match item {
        StarkProofItem::BoundaryQuotientRoot(root) => blob_encoding(root@),
        StarkProofItem::RandomizerRoot(root) => blob_encoding(root@),
        StarkProofItem::FriProof(bytes) => blob_encoding(bytes@),
        StarkProofItem::FieldElement(e) => e.encoding(),
        StarkProofItem::AuthenticationPath(path) => list_encoding(path@),
    }
}

impl Encode for StarkProofItem {
    open spec fn encoding(&self) -> Seq<u8> {
        spec_u32_to_le_bytes(stark_item_tag(*self)) + stark_item_body(*self)
    }

    proof fn lemma_prefix_free(a: StarkProofItem, b: StarkProofItem, s: Seq<u8>, pos: int) {
        lemma_tags_agree(stark_item_tag(a), stark_item_tag(b), stark_item_body(a), stark_item_body(b), s, pos);
        lemma_tagged_body(stark_item_tag(a), stark_item_body(a), stark_item_body(b), s, pos);
        match (a, b) {
            (StarkProofItem::BoundaryQuotientRoot(x), StarkProofItem::BoundaryQuotientRoot(y)) => {
                lemma_blob_prefix_free(x@, y@, s, pos + 4);
            },
            (StarkProofItem::RandomizerRoot(x), StarkProofItem::RandomizerRoot(y)) => {
                lemma_blob_prefix_free(x@, y@, s, pos + 4);
            },
            (StarkProofItem::FriProof(x), StarkProofItem::FriProof(y)) => {
                lemma_blob_prefix_free(x@, y@, s, pos + 4);
            },
            (StarkProofItem::FieldElement(x), StarkProofItem::FieldElement(y)) => {
                vstd::bytes::lemma_auto_spec_u128_to_from_le_bytes();
                lemma_same_width(stark_item_body(a), stark_item_body(b), s, pos + 4);
            },
            (StarkProofItem::AuthenticationPath(x), StarkProofItem::AuthenticationPath(y)) => {
                lemma_list_prefix_free(x@, y@, s, pos + 4);
            },
            _ => {},
        }
    }

    proof fn lemma_nonempty(a: StarkProofItem) {
        vstd::bytes::lemma_auto_spec_u32_to_from_le_bytes();
    }

    fn encode(&self, out: &mut Vec<u8>) {
        match self {
            StarkProofItem::BoundaryQuotientRoot(root) => {
                encode_tag(0, out);
                root.encode(out);
            },
            StarkProofItem::RandomizerRoot(root) => {
                encode_tag(1, out);
                root.encode(out);
            },
            StarkProofItem::FriProof(bytes) => {
                encode_tag(2, out);
                bytes.encode(out);
            },
            StarkProofItem::FieldElement(e) => {
                encode_tag(3, out);
                e.encode(out);
            },
            StarkProofItem::AuthenticationPath(path) => {
                encode_tag(4, out);
                encode_list(path.as_slice(), out);
            },
        }
        proof {
            assert(final(out)@ =~= old(out)@ + self.encoding());
        }
    }

    fn decode(bytes: &[u8], pos: usize) -> (r: Option<(StarkProofItem, usize)>) {
        let total = bytes.len();
        let tag = match read_u32(bytes, pos) {
            Some(t) => t,
            None => {
                proof {
                    vstd::bytes::lemma_auto_spec_u32_to_from_le_bytes();
                    assert forall|w: StarkProofItem| !fits_at(#[trigger] w.encoding(), bytes@, pos as int) by {
                        assert(w.encoding().len() >= 4);
                    }
                }
                return None;
            },
        };
        let body = pos + 4;
        proof {
            vstd::bytes::lemma_auto_spec_u32_to_from_le_bytes();
            assert forall|w: StarkProofItem| fits_at(#[trigger] w.encoding(), bytes@, pos as int) implies stark_item_tag(w)
                == tag && fits_at(stark_item_body(w), bytes@, body as int) by {
                lemma_tag_at(tag, stark_item_tag(w), stark_item_body(w), bytes@, pos as int);
            }
        }
        let r = if tag == 0 {
            match <Vec<u8> as Encode>::decode(bytes, body) {
                Some((root, end)) => Some((StarkProofItem::BoundaryQuotientRoot(root), end)),
                None => None,
            }
        } else if tag == 1 {
            match <Vec<u8> as Encode>::decode(bytes, body) {
                Some((root, end)) => Some((StarkProofItem::RandomizerRoot(root), end)),
                None => None,
            }
        } else if tag == 2 {
            match <Vec<u8> as Encode>::decode(bytes, body) {
                Some((proof, end)) => Some((StarkProofItem::FriProof(proof), end)),
                None => None,
            }
        } else if tag == 3 {
            match <FieldElement as Encode>::decode(bytes, body) {
                Some((e, end)) => Some((StarkProofItem::FieldElement(e), end)),
                None => None,
            }
        } else if tag == 4 {
            match decode_list::<Vec<u8>>(bytes, body) {
                Some((path, end)) => Some((StarkProofItem::AuthenticationPath(path), end)),
                None => None,
            }
        } else {
            None
        };
        let ghost rg = r;
        proof {
            match rg {
                Some((v, end)) => {
                    assert(bytes@.subrange(pos as int, end as int) =~= bytes@.subrange(pos as int, body as int)
                        + bytes@.subrange(body as int, end as int));
                },
                None => {
                    assert forall|w: StarkProofItem| !fits_at(#[trigger] w.encoding(), bytes@, pos as int) by {
                        if fits_at(w.encoding(), bytes@, pos as int) {
                            assert(stark_item_tag(w) == tag && fits_at(stark_item_body(w), bytes@, body as int));
                            match w {
                                StarkProofItem::BoundaryQuotientRoot(x) => {
                                    assert(x.encoding() == blob_encoding(x@));
                                    assert(fits_at(x.encoding(), bytes@, body as int));
                                },
                                StarkProofItem::RandomizerRoot(x) => {
                                    assert(x.encoding() == blob_encoding(x@));
                                    assert(fits_at(x.encoding(), bytes@, body as int));
                                },
                                StarkProofItem::FriProof(x) => {
                                    assert(x.encoding() == blob_encoding(x@));
                                    assert(fits_at(x.encoding(), bytes@, body as int));
                                },
                                StarkProofItem::FieldElement(e) => {
                                    vstd::bytes::lemma_auto_spec_u128_to_from_le_bytes();
                                    assert(stark_item_body(w).len() == 32);
                                },
                                StarkProofItem::AuthenticationPath(x) => {
                                    assert(fits_at(list_encoding(x@), bytes@, body as int));
                                },
                            }
                        }
                    }
                },
            }
        }
        r
    }
}

} // verus!
