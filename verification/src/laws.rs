//! Laws the library's specification functions obey, stated for every
//! input and proved once, beside the per-function contracts.

use vstd::prelude::*;
use vstd::arithmetic::power2::{pow2, lemma2_to64};

use crate::hashing::{leaf_hash_of, parent_hash_of, sha256_of};
use crate::model::{
    Entry, lemma_insert_weight, lemma_insert_well_formed, limit_of, root_of, root_state,
    stack_insert, subroot_of, weight, well_formed,
};

verus! {

/// The root digest is a function of the block sequence alone: equal
/// sequences yield equal roots, however and how often they are computed.
pub proof fn lemma_root_deterministic(s1: Seq<Seq<u8>>, s2: Seq<Seq<u8>>)
    requires
        s1 == s2,
    ensures
        root_of(s1) == root_of(s2),
{
}

/// Leaf and parent digests are plain SHA-256: a leaf hashes the block's
/// bytes as they stand, a parent hashes the left operand's bytes followed
/// by the right's, with no padding, tag, or length prefix of the
/// library's own.
pub proof fn lemma_hash_shape(b: Seq<u8>, l: Seq<u8>, r: Seq<u8>)
    ensures
        leaf_hash_of(b) == sha256_of(b),
        parent_hash_of(l, r) == sha256_of(l + r),
{
}

/// The root of no blocks is the empty byte sequence, not a hash of the
/// empty string.
pub proof fn lemma_root_empty()
    ensures
        root_of(Seq::<Seq<u8>>::empty()) == Seq::<u8>::empty(),
{
}

/// The root of a single block is that block's leaf digest, not re-hashed.
pub proof fn lemma_root_singleton(b: Seq<u8>)
    ensures
        root_of(seq![b]) == leaf_hash_of(b),
{
    let s = seq![b];
    assert(s.len() == 1);
    assert(s.last() == b);
    assert(s.drop_last() =~= Seq::<Seq<u8>>::empty());
    assert(root_state(Seq::<Seq<u8>>::empty()) == Seq::<Entry>::empty());
    let st = seq![(0int, leaf_hash_of(b))];
    assert(root_state(s) == stack_insert(Seq::<Entry>::empty(), leaf_hash_of(b), 0));
    assert(root_state(s) == st);
    assert(st.reverse() =~= st);
    assert(st.reverse().map_values(|e: Entry| e.1) =~= seq![leaf_hash_of(b)]);
}

/// From an empty accumulator, inserting `n` leaves at level 0 yields a
/// well-formed ledger whose weight is exactly `n`: the ledger counts its
/// leaves the way a binary ripple-carry counter counts increments, one
/// digest per occupied level.
pub proof fn lemma_root_state_counts_blocks(blocks: Seq<Seq<u8>>)
    ensures
        well_formed(root_state(blocks)),
        weight(root_state(blocks)) == blocks.len(),
    decreases blocks.len(),
{
    if blocks.len() > 0 {
        let prior = root_state(blocks.drop_last());
        lemma_root_state_counts_blocks(blocks.drop_last());
        lemma_insert_well_formed(prior, leaf_hash_of(blocks.last()), 0);
        lemma_insert_weight(prior, leaf_hash_of(blocks.last()), 0);
        lemma2_to64();
    }
}

/// A subroot at `level` is exactly the root of the stream limited to its
/// first `2^level` blocks, recomputed from scratch over that prefix.
pub proof fn lemma_subroot_is_root_of_prefix(blocks: Seq<Seq<u8>>, level: nat)
    ensures
        subroot_of(blocks, level) == root_of(limit_of(blocks, pow2(level))),
{
}

/// Limiting keeps the first `min(n, len)` blocks in their original order
/// with their original bytes; limiting an empty stream, or any stream to
/// zero, yields the empty stream.
pub proof fn lemma_limit_properties(blocks: Seq<Seq<u8>>, n: nat)
    ensures
        limit_of(blocks, n).len() == if n <= blocks.len() {
            n
        } else {
            blocks.len()
        },
        forall|k: int| 0 <= k < limit_of(blocks, n).len() ==> limit_of(blocks, n)[k] == blocks[k],
        limit_of(Seq::<Seq<u8>>::empty(), n) == Seq::<Seq<u8>>::empty(),
        limit_of(blocks, 0) == Seq::<Seq<u8>>::empty(),
{
    assert(limit_of(Seq::<Seq<u8>>::empty(), n) =~= Seq::<Seq<u8>>::empty());
    assert(limit_of(blocks, 0) =~= Seq::<Seq<u8>>::empty());
}

} // verus!
