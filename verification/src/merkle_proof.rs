//! The proof engine: builds a compact membership proof from a stream and
//! an index, and reconstructs a root from a leaf digest plus the proof's
//! subroots by replaying the accumulator's insertion.

use vstd::prelude::*;
use vstd::arithmetic::power2::{pow2, lemma_pow2_strictly_increases, lemma2_to64};

use crate::hashing::leaf_hash_of;
use crate::merkle_tree::{MerkleTree, Stack};
use crate::model::{Entry, load_stack_of, reconstructed_root, subroot_of, weight, well_formed};
use crate::util::{ones, ones_of, zeros, zeros_of};

verus! {

/// The root of the first `2^i` blocks of some stream, tagged with its
/// level `i`.
#[derive(Debug, Clone)]
pub struct SubRoot {
    pub i: i32,
    pub subroot: Vec<u8>,
}

impl View for SubRoot {
    type V = Entry;

    open spec fn view(&self) -> Entry {
        (self.i as int, self.subroot@)
    }
}

/// A membership proof: the subroots loaded before the leaf (`pre`, one
/// per set bit of the index), the leaf digest itself, and the subroots
/// loaded after it (`post`, one per unset bit).
#[derive(Debug, Clone)]
pub struct Proof {
    pub pre: Vec<SubRoot>,
    pub leaf: Vec<u8>,
    pub post: Vec<SubRoot>,
}

/// The (level, digest) pairs of a subroot collection, in order.
pub open spec fn subroots_view(v: Seq<SubRoot>) -> Seq<Entry> {
    v.map_values(|sr: SubRoot| sr@)
}

/// Whether every subroot's level lies in the accumulator's 0..=31 range.
pub open spec fn levels_in_range(v: Seq<SubRoot>) -> bool {
    forall|k: int| 0 <= k < v.len() ==> 0 <= (#[trigger] v[k]).i <= 31
}

/// Byte-for-byte equality of two byte vectors.
fn bytes_eq(a: &Vec<u8>, b: &Vec<u8>) -> (r: bool)
    ensures
        r == (a@ == b@),
{
    if a.len() != b.len() {
        return false;
    }
    let mut i: usize = 0;
    while i < a.len()
        invariant
            0 <= i <= a@.len(),
            a@.len() == b@.len(),
            forall|j: int| 0 <= j < i ==> a@[j] == b@[j],
        decreases a@.len() - i,
    {
        if a[i] != b[i] {
            return false;
        }
        i += 1;
    }
    proof {
        assert(a@ =~= b@);
    }
    true
}

/// Proof construction and verification over the accumulator.
pub struct MerkleProof;

impl MerkleProof {
    /// The leaf digest of the stream's first block, or nothing when the
    /// stream is empty. The block under proof is always the first one.
    pub fn read_leaf(stream: Vec<Vec<u8>>) -> (r: Option<Vec<u8>>)
        ensures
            stream@.len() == 0 ==> r is None,
            stream@.len() > 0 ==> (r matches Some(v) && v@ == leaf_hash_of(stream@[0]@)),
    {
        if stream.is_empty() {
            return None;
        }
        Some(MerkleTree::leaf_hash(stream[0].as_slice()))
    }

    /// Builds the proof for `index`: one subroot per set bit of `index`
    /// into `pre` and one per unset bit into `post`, each at its bit
    /// position and in ascending position order, plus the first block's
    /// leaf digest.
    pub fn prove_leaf(stream: Vec<Vec<u8>>, index: i32) -> (p: Proof)
        requires
            stream@.len() > 0,
        ensures
            p.pre@.len() == ones_of(index).len(),
            forall|k: int| #![trigger p.pre@[k]] 0 <= k < p.pre@.len() ==> p.pre@[k].i == ones_of(
                index,
            )[k] && p.pre@[k].subroot@ == subroot_of(stream.deep_view(), ones_of(index)[k] as nat),
            p.post@.len() == zeros_of(index).len(),
            forall|k: int| #![trigger p.post@[k]] 0 <= k < p.post@.len() ==> p.post@[k].i
                == zeros_of(index)[k] && p.post@[k].subroot@ == subroot_of(
                stream.deep_view(),
                zeros_of(index)[k] as nat,
            ),
            p.leaf@ == leaf_hash_of(stream@[0]@),
            levels_in_range(p.pre@),
            levels_in_range(p.post@),
            p.pre@.len() <= 32,
            p.post@.len() <= 32,
    {
        let one_positions = ones(index);
        let mut pre: Vec<SubRoot> = Vec::new();
        let mut k: usize = 0;
        while k < one_positions.len()
            invariant
                0 <= k <= one_positions@.len(),
                one_positions@ == ones_of(index),
                forall|j: int| 0 <= j < one_positions@.len() ==> 0 <= #[trigger] one_positions@[j]
                    < 32,
                pre@.len() == k,
                forall|j: int| #![trigger pre@[j]] 0 <= j < k ==> pre@[j].i == ones_of(index)[j]
                    && pre@[j].subroot@ == subroot_of(stream.deep_view(), ones_of(index)[j] as nat),
            decreases one_positions@.len() - k,
        {
            let level = one_positions[k];
            pre.push(SubRoot { i: level, subroot: MerkleTree::subroot(&stream, level) });
            k += 1;
        }
        let zero_positions = zeros(index);
        let mut post: Vec<SubRoot> = Vec::new();
        let mut m: usize = 0;
        while m < zero_positions.len()
            invariant
                0 <= m <= zero_positions@.len(),
                zero_positions@ == zeros_of(index),
                forall|j: int| 0 <= j < zero_positions@.len() ==> 0 <= #[trigger] zero_positions@[j]
                    < 32,
                post@.len() == m,
                forall|j: int| #![trigger post@[j]] 0 <= j < m ==> post@[j].i == zeros_of(index)[j]
                    && post@[j].subroot@ == subroot_of(
                    stream.deep_view(),
                    zeros_of(index)[j] as nat,
                ),
            decreases zero_positions@.len() - m,
        {
            let level = zero_positions[m];
            post.push(SubRoot { i: level, subroot: MerkleTree::subroot(&stream, level) });
            m += 1;
        }
        let leaf = match Self::read_leaf(stream) {
            Some(l) => l,
            None => {
                proof {
                    assert(false);
                }
                Vec::new()
            },
        };
        Proof { pre, leaf, post }
    }

    /// Inserts each subroot's digest at its recorded level, in order.
    pub fn load_stack(stack: Stack, blocks: Vec<SubRoot>) -> (r: Stack)
        requires
            well_formed(stack@),
            levels_in_range(blocks@),
            weight(stack@) + blocks@.len() * pow2(31) <= pow2(64),
        ensures
            r@ == load_stack_of(stack@, subroots_view(blocks@)),
            well_formed(r@),
            weight(r@) <= weight(stack@) + blocks@.len() * pow2(31),
    {
        let ghost s0 = stack@;
        let ghost bv = subroots_view(blocks@);
        proof {
            assert(bv.take(0) =~= Seq::<Entry>::empty());
        }
        let mut cur = stack;
        let mut k: usize = 0;
        while k < blocks.len()
            invariant
                0 <= k <= blocks@.len(),
                bv == subroots_view(blocks@),
                bv.len() == blocks@.len(),
                levels_in_range(blocks@),
                well_formed(cur@),
                cur@ == load_stack_of(s0, bv.take(k as int)),
                weight(cur@) <= weight(s0) + k * pow2(31),
                weight(s0) + blocks@.len() * pow2(31) <= pow2(64),
            decreases blocks@.len() - k,
        {
            let b = &blocks[k];
            proof {
                lemma2_to64();
                if b.i < 31 {
                    lemma_pow2_strictly_increases(b.i as nat, 31);
                }
                assert(pow2(b.i as nat) <= pow2(31));
            }
            cur = MerkleTree::insert(cur, b.subroot.as_slice(), b.i);
            k += 1;
            proof {
                assert(bv.take(k as int).drop_last() =~= bv.take(k as int - 1));
                assert(bv.take(k as int).last() == bv[k as int - 1]);
                assert(bv[k as int - 1] == blocks@[k as int - 1]@);
            }
        }
        proof {
            assert(bv.take(blocks@.len() as int) =~= bv);
        }
        cur
    }

    /// Reconstructs a root from a leaf digest and a proof: from an empty
    /// accumulator, load `pre`, insert the leaf at level 0, load `post`,
    /// insert the leaf at level 0 a second time, and finalize. The
    /// doubled leaf insertion is part of the observed reconstruction and
    /// is reproduced faithfully.
    pub fn root_from_proof_and_leaf(leaf: Vec<u8>, pf: Proof) -> (r: Vec<u8>)
        requires
            levels_in_range(pf.pre@),
            levels_in_range(pf.post@),
            (pf.pre@.len() + pf.post@.len()) * pow2(31) + 2 <= pow2(64),
        ensures
            r@ == reconstructed_root(leaf@, subroots_view(pf.pre@), subroots_view(pf.post@)),
    {
        let ghost pre_len = pf.pre@.len() as int;
        proof {
            lemma2_to64();
        }
        let mut stack = Stack::new();
        stack = Self::load_stack(stack, pf.pre);
        stack = MerkleTree::insert(stack, leaf.as_slice(), 0);
        proof {
            assert(weight(stack@) <= pre_len * pow2(31) + 1);
        }
        stack = Self::load_stack(stack, pf.post);
        stack = MerkleTree::insert(stack, leaf.as_slice(), 0);
        MerkleTree::finalize(stack)
    }

    /// Whether `knownroot` is byte-for-byte the digest the proof and leaf
    /// reconstruct.
    pub fn verify_leaf(knownroot: Vec<u8>, leaf: Vec<u8>, pf: Proof) -> (r: bool)
        requires
            levels_in_range(pf.pre@),
            levels_in_range(pf.post@),
            (pf.pre@.len() + pf.post@.len()) * pow2(31) + 2 <= pow2(64),
        ensures
            r == (knownroot@ == reconstructed_root(
                leaf@,
                subroots_view(pf.pre@),
                subroots_view(pf.post@),
            )),
    {
        let computed = Self::root_from_proof_and_leaf(leaf, pf);
        bytes_eq(&knownroot, &computed)
    }
}

} // verus!
