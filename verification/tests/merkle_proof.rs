use merkle_stream::{MerkleProof, Proof, Stack, SubRoot};

#[test]
fn test_read_leaf() {
    let stream = vec![vec![1, 2, 3], vec![4, 5, 6]];
    let leaf = MerkleProof::read_leaf(stream);
    assert_eq!(
        leaf,
        Some(vec![
            3, 144, 88, 198, 242, 192, 203, 73, 44, 83, 59, 10, 77, 20, 239, 119, 204, 15, 120,
            171, 204, 206, 213, 40, 125, 132, 161, 162, 1, 28, 251, 129
        ])
    );
}

#[test]
fn test_prove_leaf() {
    let stream = vec![vec![1, 2, 3], vec![4, 5, 6], vec![7, 8, 9]];
    let proof = MerkleProof::prove_leaf(stream, 1);
    assert_eq!(proof.pre.len(), 1);
    assert_eq!(proof.post.len(), 31);
    assert_eq!(
        proof.leaf,
        vec![
            3, 144, 88, 198, 242, 192, 203, 73, 44, 83, 59, 10, 77, 20, 239, 119, 204, 15, 120,
            171, 204, 206, 213, 40, 125, 132, 161, 162, 1, 28, 251, 129,
        ]
    );
}

#[test]
fn test_load_stack() {
    let mut stack = Stack::new();
    stack = MerkleProof::load_stack(
        stack,
        vec![SubRoot {
            i: 0,
            subroot: vec![1, 2, 3],
        }],
    );
    assert_eq!(stack.get(0).unwrap(), &vec![1, 2, 3]);
}

#[test]
fn test_root_from_proof_and_leaf() {
    let leaf = vec![1, 2, 3];
    let proof = Proof {
        pre: vec![],
        leaf: leaf.clone(),
        post: vec![],
    };
    let root = MerkleProof::root_from_proof_and_leaf(leaf, proof);
    assert_eq!(
        root,
        vec![
            59, 163, 94, 232, 63, 33, 128, 19, 248, 184, 63, 8, 174, 44, 6, 201, 216, 224, 90,
            25, 141, 39, 28, 87, 201, 233, 161, 119, 27, 68, 162, 17
        ]
    );
}

#[test]
fn test_verify_leaf() {
    let knownroot = vec![
        59, 163, 94, 232, 63, 33, 128, 19, 248, 184, 63, 8, 174, 44, 6, 201, 216, 224, 90, 25,
        141, 39, 28, 87, 201, 233, 161, 119, 27, 68, 162, 17,
    ];
    let leaf = vec![1, 2, 3];
    let proof = Proof {
        pre: vec![],
        leaf: leaf.clone(),
        post: vec![],
    };
    let verified = MerkleProof::verify_leaf(knownroot.clone(), leaf.clone(), proof);
    assert_eq!(verified, true);

    let nv_knownroot = vec![1, 2, 3];
    let nv_leaf = vec![1, 2, 3];
    let nv_proof = Proof {
        pre: vec![],
        leaf: leaf.clone(),
        post: vec![],
    };
    let not_verified = MerkleProof::verify_leaf(nv_knownroot.clone(), nv_leaf.clone(), nv_proof);
    assert_eq!(not_verified, false);
}
