pub mod hashing;
pub mod laws;
pub mod merkle_proof;
pub mod merkle_tree;
pub mod model;
pub mod util;

pub use hashing::sha256_of;
pub use merkle_proof::MerkleProof;
pub use merkle_proof::Proof;
pub use merkle_proof::SubRoot;
pub use merkle_tree::MerkleTree;
pub use merkle_tree::Stack;
