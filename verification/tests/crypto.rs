use blake2::{Blake2b512, Digest};
use stark::crypto::{Merkle, ProofStream};

#[test]
fn push_and_pull_round_trip() {
    let mut stream = ProofStream::new();
    stream.push(3u64);
    stream.push(5u64);

    assert_eq!(stream.pull(), 3);
    assert_eq!(stream.pull(), 5);
}

#[test]
fn serialization_round_trip() {
    let mut stream = ProofStream::new();
    stream.push(String::from("alpha"));
    stream.push(String::from("beta"));

    let bytes = stream.serialize();
    let restored = ProofStream::<String>::deserialize(&bytes);

    assert_eq!(restored.serialize(), bytes);
}

#[test]
fn prover_and_verifier_challenges_diverge_after_reads() {
    let mut stream = ProofStream::new();
    stream.push(1u64);
    stream.push(2u64);

    let prover = stream.prover_fiat_shamir(32);
    let verifier_before_read = stream.verifier_fiat_shamir(32);
    assert_ne!(prover, verifier_before_read);

    let _ = stream.pull();
    let verifier_after_read = stream.verifier_fiat_shamir(32);
    assert_ne!(verifier_before_read, verifier_after_read);
}

#[test]
fn commit_and_verify_round_trip() {
    let data = vec![b"a".to_vec(), b"b".to_vec(), b"c".to_vec(), b"d".to_vec()];

    let root = Merkle::commit(&data);
    let path = Merkle::open(2, &data);

    assert!(Merkle::verify(&root, 2, &path, &data[2]));
}

#[test]
fn verify_rejects_wrong_leaf() {
    let data = vec![b"a".to_vec(), b"b".to_vec(), b"c".to_vec(), b"d".to_vec()];

    let root = Merkle::commit(&data);
    let path = Merkle::open(1, &data);

    assert!(!Merkle::verify(&root, 1, &path, &b"z".to_vec()));
}

#[test]
fn open_hashed_leaves_matches_verify_hashed_leaf() {
    let leaves = [b"a", b"b", b"c", b"d"]
        .into_iter()
        .map(|bytes| {
            let mut hasher = Blake2b512::new();
            hasher.update(bytes);
            hasher.finalize().to_vec()
        })
        .collect::<Vec<_>>();

    let root = Merkle::commit_(&leaves);
    let path = Merkle::open_(3, &leaves);

    assert!(Merkle::verify_(&root, 3, &path, &leaves[3]));
}

#[test]
fn merkle_root_is_the_hash_of_the_hashed_pairs() {
    let data = vec![b"a".to_vec(), b"b".to_vec()];
    let la = Blake2b512::digest(b"a").to_vec();
    let lb = Blake2b512::digest(b"b").to_vec();
    let mut both = la.clone();
    both.extend_from_slice(&lb);
    let expected = Blake2b512::digest(&both).to_vec();
    assert_eq!(Merkle::commit(&data), expected);
    assert_eq!(Merkle::open(0, &data), vec![lb]);
    assert_eq!(Merkle::open(1, &data), vec![la]);
}

#[test]
fn every_opening_verifies_against_the_root() {
    let data: Vec<Vec<u8>> = (0u8..8).map(|i| vec![i, i + 1]).collect();
    let root = Merkle::commit(&data);
    for i in 0..8 {
        let path = Merkle::open(i, &data);
        assert_eq!(path.len(), 3);
        assert!(Merkle::verify(&root, i, &path, &data[i]));
        assert!(!Merkle::verify(&root, (i + 1) % 8, &path, &data[i]));
    }
}

#[test]
fn fiat_shamir_prover_matches_verifier_after_reading_everything() {
    let mut stream = ProofStream::new();
    stream.push(7u64);
    stream.push(9u64);
    let prover = stream.prover_fiat_shamir(16);
    let _ = stream.pull();
    let _ = stream.pull();
    assert_eq!(stream.verifier_fiat_shamir(16), prover);
    assert_eq!(prover.len(), 16);
}

#[test]
fn prefix_changes_the_challenge() {
    let mut plain = ProofStream::new();
    plain.push(1u64);
    let mut prefixed = ProofStream::with_prefix(vec![1, 2, 3]);
    prefixed.push(1u64);
    assert_ne!(plain.prover_fiat_shamir(32), prefixed.prover_fiat_shamir(32));
    assert_eq!(prefixed.prefix(), &[1, 2, 3]);
}

#[test]
fn deserialize_rejects_truncated_transcripts() {
    let mut stream = ProofStream::new();
    stream.push(String::from("gamma"));
    let bytes = stream.serialize();
    assert!(ProofStream::<String>::try_deserialize_with_prefix(&bytes[..bytes.len() - 1], Vec::new()).is_none());
    assert!(ProofStream::<String>::try_deserialize_with_prefix(&bytes, Vec::new()).is_some());
}

#[test]
fn objects_survive_serialization() {
    let stream = ProofStream::from_objects(vec![4u64, 8, 15]);
    let restored = ProofStream::<u64>::deserialize(&stream.serialize());
    assert_eq!(restored.into_objects(), vec![4u64, 8, 15]);
    assert_eq!(stream.len(), 3);
    assert!(!stream.is_empty());
}

#[test]
fn path_entries_are_the_sibling_subtree_roots() {
    let leaves: Vec<Vec<u8>> = (0u8..8).map(|i| Blake2b512::digest([i, 7]).to_vec()).collect();
    for index in 0..8usize {
        let path = Merkle::open_(index, &leaves);
        assert_eq!(path.len(), 3);
        for k in 0..3usize {
            let block = (index >> k) ^ 1;
            let width = 1usize << k;
            let sibling = Merkle::commit_(&leaves[block * width..(block + 1) * width]);
            assert_eq!(path[k], sibling);
        }
    }
}

#[test]
fn the_first_path_entry_is_the_sibling_leaf() {
    let data: Vec<Vec<u8>> = (0u8..4).map(|i| vec![i; 3]).collect();
    for index in 0..4usize {
        let path = Merkle::open(index, &data);
        assert_eq!(path[0], Blake2b512::digest(&data[index ^ 1]).to_vec());
    }
}

#[test]
fn shorter_challenge_is_prefix_of_longer() {
    let mut stream = ProofStream::new();
    stream.push(7u64);
    stream.push(11u64);
    let long = stream.prover_fiat_shamir(64);
    let short = stream.prover_fiat_shamir(8);
    assert_eq!(long.len(), 64);
    assert_eq!(short.as_slice(), &long[..8]);
    let _ = stream.pull();
    let vlong = stream.verifier_fiat_shamir(40);
    let vshort = stream.verifier_fiat_shamir(3);
    assert_eq!(vshort.as_slice(), &vlong[..3]);
}
