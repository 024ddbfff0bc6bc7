use merkle_stream::{MerkleProof, MerkleTree};
use merkle_stream::util::{ones, zeros, string_to_byte_slice};

#[test]
fn test_root_deterministic() {
    let stream = vec![b"foo".to_vec(), b"bar".to_vec(), b"doe".to_vec()];
    let first = MerkleTree::root(&stream);
    let second = MerkleTree::root(&stream);
    assert_eq!(first, second);
}

#[test]
fn test_root_empty() {
    let stream: Vec<Vec<u8>> = vec![];
    assert_eq!(MerkleTree::root(&stream), Vec::<u8>::new());
}

#[test]
fn test_root_single_block() {
    let stream = vec![b"foo".to_vec()];
    assert_eq!(MerkleTree::root(&stream), MerkleTree::leaf_hash(b"foo"));
}

#[test]
fn test_leaf_hash_of_empty_block() {
    let hash = MerkleTree::leaf_hash(b"");
    assert_eq!(
        hash,
        [
            227, 176, 196, 66, 152, 252, 28, 20, 154, 251, 244, 200, 153, 111, 185, 36, 39, 174,
            65, 228, 100, 155, 147, 76, 164, 149, 153, 27, 120, 82, 184, 85
        ]
    );
}

#[test]
fn test_subroot_matches_root_of_limited_prefix() {
    let stream = vec![
        b"a".to_vec(),
        b"b".to_vec(),
        b"c".to_vec(),
        b"d".to_vec(),
        b"e".to_vec(),
    ];
    for k in 0..3 {
        let prefix = MerkleTree::limit(&stream, 1usize << k);
        assert_eq!(MerkleTree::subroot(&stream, k as i32), MerkleTree::root(&prefix));
    }
}

#[test]
fn test_limit_longer_than_stream_keeps_everything() {
    let stream = vec![vec![1, 2, 3], vec![4, 5, 6]];
    assert_eq!(MerkleTree::limit(&stream, 17), stream);
}

#[test]
fn test_proof_round_trip() {
    let stream = vec![vec![1u8, 2, 3], vec![4, 5, 6], vec![7, 8, 9]];
    let proof = MerkleProof::prove_leaf(stream, 1);
    let reconstructed = MerkleProof::root_from_proof_and_leaf(proof.leaf.clone(), proof.clone());
    assert_eq!(
        MerkleProof::verify_leaf(reconstructed, proof.leaf.clone(), proof.clone()),
        true
    );
    let unrelated = vec![9u8, 9, 9];
    assert_eq!(
        MerkleProof::verify_leaf(unrelated, proof.leaf.clone(), proof),
        false
    );
}

#[test]
fn test_ones_and_zeros_partition_the_bit_positions() {
    assert_eq!(ones(0), Vec::<i32>::new());
    assert_eq!(zeros(0), (0..32).collect::<Vec<i32>>());
    assert_eq!(ones(5), vec![0, 2]);
    assert_eq!(ones(-1), (0..32).collect::<Vec<i32>>());
    assert_eq!(zeros(-1), Vec::<i32>::new());
    let mut merged = ones(38);
    merged.extend(zeros(38));
    merged.sort();
    assert_eq!(merged, (0..32).collect::<Vec<i32>>());
}

#[test]
fn test_string_to_byte_slice() {
    assert_eq!(string_to_byte_slice("abc"), vec![97u8, 98, 99]);
    assert_eq!(string_to_byte_slice(""), Vec::<u8>::new());
}
