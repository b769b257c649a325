//! The objects of a FRI transcript and their binary encoding.

use vstd::prelude::*;
use vstd::bytes::spec_u32_to_le_bytes;

use crate::crypto::encoding::{
    blob_encoding, decode_list, encode_list, encode_tag, fits_at, lemma_blob_prefix_free,
    lemma_list_prefix_free, lemma_same_width, lemma_tag_at, lemma_tagged_body, lemma_tags_agree,
    list_encoding, read_u32, Encode,
};
use crate::crypto::ProofStream;
use crate::field::FieldElement;

verus! {

/// Typed transcript objects emitted by the FRI prover and consumed by the verifier.
#[derive(Debug)]
pub enum FriProofItem {
    MerkleRoot(Vec<u8>),
    LastCodeword(Vec<FieldElement>),
    QueryValues(FieldElement, FieldElement, FieldElement),
    AuthenticationPath(Vec<Vec<u8>>),
}

/// A proof stream specialized for FRI transcripts.
pub type FriProofStream = ProofStream<FriProofItem>;

/// The tag and the body of an item's encoding.
pub open spec fn fri_item_tag(item: FriProofItem) -> u32 {
    match item {
        FriProofItem::MerkleRoot(_) => 0,
        FriProofItem::LastCodeword(_) => 1,
        FriProofItem::QueryValues(_, _, _) => 2,
        FriProofItem::AuthenticationPath(_) => 3,
    }
}

/// The body of an item's encoding, after its tag.
pub open spec fn fri_item_body(item: FriProofItem) -> Seq<u8> {
    match item {
        FriProofItem::MerkleRoot(root) => blob_encoding(root@),
        FriProofItem::LastCodeword(codeword) => list_encoding(codeword@),
        FriProofItem::QueryValues(a, b, c) => a.encoding() + b.encoding() + c.encoding(),
        FriProofItem::AuthenticationPath(path) => list_encoding(path@),
    }
}

impl Encode for FriProofItem {
    open spec fn encoding(&self) -> Seq<u8> {
        spec_u32_to_le_bytes(fri_item_tag(*self)) + fri_item_body(*self)
    }

    proof fn lemma_prefix_free(a: FriProofItem, b: FriProofItem, s: Seq<u8>, pos: int) {
        lemma_tags_agree(fri_item_tag(a), fri_item_tag(b), fri_item_body(a), fri_item_body(b), s, pos);
        lemma_tagged_body(fri_item_tag(a), fri_item_body(a), fri_item_body(b), s, pos);
        match (a, b) {
            (FriProofItem::MerkleRoot(x), FriProofItem::MerkleRoot(y)) => {
                lemma_blob_prefix_free(x@, y@, s, pos + 4);
            },
            (FriProofItem::LastCodeword(x), FriProofItem::LastCodeword(y)) => {
                lemma_list_prefix_free(x@, y@, s, pos + 4);
            },
            (FriProofItem::QueryValues(x0, x1, x2), FriProofItem::QueryValues(y0, y1, y2)) => {
                vstd::bytes::lemma_auto_spec_u128_to_from_le_bytes();
                lemma_same_width(fri_item_body(a), fri_item_body(b), s, pos + 4);
            },
            (FriProofItem::AuthenticationPath(x), FriProofItem::AuthenticationPath(y)) => {
                lemma_list_prefix_free(x@, y@, s, pos + 4);
            },
            _ => {},
        }
    }

    proof fn lemma_nonempty(a: FriProofItem) {
        vstd::bytes::lemma_auto_spec_u32_to_from_le_bytes();
    }

    fn encode(&self, out: &mut Vec<u8>) {
        match self {
            FriProofItem::MerkleRoot(root) => {
                encode_tag(0, out);
                root.encode(out);
            },
            FriProofItem::LastCodeword(codeword) => {
                encode_tag(1, out);
                encode_list(codeword.as_slice(), out);
            },
            FriProofItem::QueryValues(a, b, c) => {
                encode_tag(2, out);
                a.encode(out);
                b.encode(out);
                c.encode(out);
            },
            FriProofItem::AuthenticationPath(path) => {
                encode_tag(3, out);
                encode_list(path.as_slice(), out);
            },
        }
        proof {
            assert(final(out)@ =~= old(out)@ + self.encoding());
        }
    }

    fn decode(bytes: &[u8], pos: usize) -> (r: Option<(FriProofItem, usize)>) {
        let total = bytes.len();
        let tag = match read_u32(bytes, pos) {
            Some(t) => t,
            None => {
                proof {
                    vstd::bytes::lemma_auto_spec_u32_to_from_le_bytes();
                    assert forall|w: FriProofItem| !fits_at(#[trigger] w.encoding(), bytes@, pos as int) by {
                        assert(w.encoding().len() >= 4);
                    }
                }
                return None;
            },
        };
        let body = pos + 4;
        proof {
            vstd::bytes::lemma_auto_spec_u32_to_from_le_bytes();
            assert forall|w: FriProofItem| fits_at(#[trigger] w.encoding(), bytes@, pos as int) implies fri_item_tag(w)
                == tag && fits_at(fri_item_body(w), bytes@, body as int) by {
                lemma_tag_at(tag, fri_item_tag(w), fri_item_body(w), bytes@, pos as int);
            }
        }
        let r = if tag == 0 {
            match <Vec<u8> as Encode>::decode(bytes, body) {
                Some((root, end)) => Some((FriProofItem::MerkleRoot(root), end)),
                None => None,
            }
        } else if tag == 1 {
            match decode_list::<FieldElement>(bytes, body) {
                Some((codeword, end)) => Some((FriProofItem::LastCodeword(codeword), end)),
                None => None,
            }
        } else if tag == 2 {
            match <FieldElement as Encode>::decode(bytes, body) {
                Some((a, e1)) => match <FieldElement as Encode>::decode(bytes, e1) {
                    Some((b, e2)) => match <FieldElement as Encode>::decode(bytes, e2) {
                        Some((c, e3)) => {
                            proof {
                                assert(bytes@.subrange(body as int, e3 as int) =~= bytes@.subrange(
                                    body as int,
                                    e1 as int,
                                ) + bytes@.subrange(e1 as int, e2 as int) + bytes@.subrange(e2 as int, e3 as int));
                            }
                            Some((FriProofItem::QueryValues(a, b, c), e3))
                        },
                        None => None,
                    },
                    None => None,
                },
                None => None,
            }
        } else if tag == 3 {
            match decode_list::<Vec<u8>>(bytes, body) {
                Some((path, end)) => Some((FriProofItem::AuthenticationPath(path), end)),
                None => None,
            }
        } else {
            None
        };
        let ghost rg = r;
        proof {
            match rg {
                Some((v, end)) => {
                    assert(bytes@.subrange(pos as int, end as int) =~= bytes@.subrange(pos as int, body as int)
                        + bytes@.subrange(body as int, end as int));
                },
                None => {
                    assert forall|w: FriProofItem| !fits_at(#[trigger] w.encoding(), bytes@, pos as int) by {
                        if fits_at(w.encoding(), bytes@, pos as int) {
                            assert(fri_item_tag(w) == tag && fits_at(fri_item_body(w), bytes@, body as int));
                            match w {
                                FriProofItem::MerkleRoot(x) => {
                                    assert(x.encoding() == blob_encoding(x@));
                                    assert(fits_at(x.encoding(), bytes@, body as int));
                                },
                                FriProofItem::LastCodeword(x) => {
                                    assert(fits_at(list_encoding(x@), bytes@, body as int));
                                },
                                FriProofItem::QueryValues(a, b, c) => {
                                    vstd::bytes::lemma_auto_spec_u128_to_from_le_bytes();
                                    assert(fri_item_body(w).len() == 96);
                                },
                                FriProofItem::AuthenticationPath(x) => {
                                    assert(fits_at(list_encoding(x@), bytes@, body as int));
                                },
                            }
                        }
                    }
                },
            }
        }
        r
    }
}

} // verus!
