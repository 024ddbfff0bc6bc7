//! The mathematical model of the accumulator: a ledger of (level, digest)
//! entries with strictly ascending levels, the carry-style insertion that
//! folds two digests at one level into one at the next, and the final
//! right-associated fold in descending level order.

use vstd::prelude::*;
use vstd::arithmetic::power2::{pow2, lemma_pow2_strictly_increases, lemma_pow2_adds, lemma2_to64};

use crate::hashing::{leaf_hash_of, parent_hash_of};

verus! {

/// One occupied accumulator slot: a level and the digest stored there.
pub type Entry = (int, Seq<u8>);

/// Levels strictly ascend left to right and are non-negative, so a ledger
/// holds at most one digest per level, and the levels read off in order.
pub open spec fn well_formed(s: Seq<Entry>) -> bool {
    &&& forall|j: int, k: int| #![trigger s[j], s[k]] 0 <= j < k < s.len() ==> s[j].0 < s[k].0
    &&& forall|k: int| 0 <= k < s.len() ==> (#[trigger] s[k]).0 >= 0
}

/// The number of leaves a ledger accounts for: an entry at level `k`
/// stands for `2^k` leaves, exactly as a set bit does in a binary counter.
pub open spec fn weight(s: Seq<Entry>) -> nat
    decreases s.len(),
{
    if s.len() == 0 {
        0
    } else {
        pow2(s[0].0 as nat) + weight(s.drop_first())
    }
}

/// Insertion with carry: if `node` is occupied, the digest there combines
/// with the incoming one (stored digest on the left) and the pair moves to
/// `node + 1`; otherwise the digest settles at `node`.
pub open spec fn stack_insert(s: Seq<Entry>, value: Seq<u8>, node: int) -> Seq<Entry>
    decreases s.len(),
{
    if s.len() == 0 {
        seq![(node, value)]
    } else if s[0].0 < node {
        seq![s[0]] + stack_insert(s.drop_first(), value, node)
    } else if s[0].0 == node {
        stack_insert(s.drop_first(), parent_hash_of(s[0].1, value), node + 1)
    } else {
        seq![(node, value)] + s
    }
}

/// The right-associated fold of digests with `parent_hash_of`: the last
/// two combine first, and the first digest is the outermost left operand.
pub open spec fn fold_right_digests(vals: Seq<Seq<u8>>) -> Seq<u8>
    decreases vals.len(),
{
    if vals.len() == 0 {
        Seq::empty()
    } else if vals.len() == 1 {
        vals[0]
    } else {
        parent_hash_of(vals[0], fold_right_digests(vals.drop_first()))
    }
}

/// The digests of a ledger ordered by descending level (a well-formed
/// ledger stores them ascending, so this reverses it).
pub open spec fn digests_descending(s: Seq<Entry>) -> Seq<Seq<u8>> {
    s.reverse().map_values(|e: Entry| e.1)
}

/// What finalizing a ledger yields: its digests, taken in descending
/// level order, folded right to left. Empty bytes for an empty ledger; a
/// single digest is returned as it stands, not re-hashed.
pub open spec fn finalize_of(s: Seq<Entry>) -> Seq<u8> {
    fold_right_digests(digests_descending(s))
}

/// The ledger obtained from an empty one by inserting each block's leaf
/// digest at level 0, in sequence order.
pub open spec fn root_state(blocks: Seq<Seq<u8>>) -> Seq<Entry>
    decreases blocks.len(),
{
    if blocks.len() == 0 {
        Seq::empty()
    } else {
        stack_insert(root_state(blocks.drop_last()), leaf_hash_of(blocks.last()), 0)
    }
}

/// The root digest of a block sequence: the empty byte sequence when
/// there are no blocks, else the finalized ledger of all the leaves.
pub open spec fn root_of(blocks: Seq<Seq<u8>>) -> Seq<u8> {
    if blocks.len() == 0 {
        Seq::empty()
    } else {
        finalize_of(root_state(blocks))
    }
}

/// The first `n` blocks, or all of them when fewer are there.
pub open spec fn limit_of(blocks: Seq<Seq<u8>>, n: nat) -> Seq<Seq<u8>> {
    if n <= blocks.len() {
        blocks.take(n as int)
    } else {
        blocks
    }
}

/// The root of the first `2^level` blocks.
pub open spec fn subroot_of(blocks: Seq<Seq<u8>>, level: nat) -> Seq<u8> {
    root_of(limit_of(blocks, pow2(level)))
}

/// The ledger after inserting each (level, digest) pair in order.
pub open spec fn load_stack_of(s: Seq<Entry>, blocks: Seq<Entry>) -> Seq<Entry>
    decreases blocks.len(),
{
    if blocks.len() == 0 {
        s
    } else {
        stack_insert(load_stack_of(s, blocks.drop_last()), blocks.last().1, blocks.last().0)
    }
}

/// The digest a proof reconstructs: from an empty ledger, load the `pre`
/// subroots, insert the leaf at level 0, load the `post` subroots, insert
/// the leaf at level 0 once more, and finalize. The leaf goes in twice;
/// that doubling is part of the reconstruction's observed contract.
pub open spec fn reconstructed_root(leaf: Seq<u8>, pre: Seq<Entry>, post: Seq<Entry>) -> Seq<u8> {
    finalize_of(
        stack_insert(
            load_stack_of(stack_insert(load_stack_of(Seq::empty(), pre), leaf, 0), post),
            leaf,
            0,
        ),
    )
}

/// The digest stored at `node`, if that level is occupied.
pub open spec fn lookup(s: Seq<Entry>, node: int) -> Option<Seq<u8>>
    decreases s.len(),
{
    if s.len() == 0 {
        None
    } else if s[0].0 == node {
        Some(s[0].1)
    } else {
        lookup(s.drop_first(), node)
    }
}

/// Prepending an entry adds its power of two to the weight.
proof fn lemma_weight_push_front(e: Entry, s: Seq<Entry>)
    ensures
        weight(seq![e] + s) == pow2(e.0 as nat) + weight(s),
{
    let t = seq![e] + s;
    assert(t.len() == 1 + s.len());
    assert(t[0] == e);
    assert(t.drop_first() =~= s);
}

/// Inserting keeps the ledger well formed, never empties it, and leaves
/// its lowest level no lower than the lesser of `node` and the old lowest.
pub proof fn lemma_insert_well_formed(s: Seq<Entry>, value: Seq<u8>, node: int)
    requires
        well_formed(s),
        node >= 0,
    ensures
        well_formed(stack_insert(s, value, node)),
        stack_insert(s, value, node).len() >= 1,
        stack_insert(s, value, node)[0].0 >= if s.len() == 0 || node <= s[0].0 {
            node
        } else {
            s[0].0
        },
    decreases s.len(),
{
    let r = stack_insert(s, value, node);
    if s.len() == 0 {
    } else if s[0].0 < node {
        assert(well_formed(s.drop_first()));
        lemma_insert_well_formed(s.drop_first(), value, node);
        let rest = stack_insert(s.drop_first(), value, node);
        assert(r == seq![s[0]] + rest);
        assert(forall|k: int| 0 <= k < rest.len() ==> (#[trigger] r[k + 1]) == rest[k]);
        assert(rest[0].0 > s[0].0);
        assert forall|j: int, k: int| #![trigger r[j], r[k]] 0 <= j < k < r.len() implies r[j].0
            < r[k].0 by {
            if j > 0 {
                assert(r[j] == rest[j - 1]);
                assert(r[k] == rest[k - 1]);
            } else {
                assert(r[k] == rest[k - 1]);
                if k > 1 {
                    assert(rest[0].0 < rest[k - 1].0);
                }
            }
        }
    } else if s[0].0 == node {
        assert(well_formed(s.drop_first()));
        lemma_insert_well_formed(s.drop_first(), parent_hash_of(s[0].1, value), node + 1);
    } else {
        assert(r == seq![(node, value)] + s);
        assert(r[0] == (node, value));
        assert(forall|k: int| 0 <= k < s.len() ==> (#[trigger] r[k + 1]) == s[k]);
        assert forall|j: int, k: int| #![trigger r[j], r[k]] 0 <= j < k < r.len() implies r[j].0
            < r[k].0 by {
            if j > 0 {
                assert(r[j] == s[j - 1]);
                assert(r[k] == s[k - 1]);
            } else {
                assert(r[k] == s[k - 1]);
                if k > 1 {
                    assert(s[0].0 < s[k - 1].0);
                }
            }
        }
    }
}

/// Inserting at `node` grows the weight by exactly `2^node`: the ledger
/// counts leaves the way a binary counter counts increments.
pub proof fn lemma_insert_weight(s: Seq<Entry>, value: Seq<u8>, node: int)
    requires
        well_formed(s),
        node >= 0,
    ensures
        weight(stack_insert(s, value, node)) == weight(s) + pow2(node as nat),
    decreases s.len(),
{
    if s.len() == 0 {
        lemma_weight_push_front((node, value), Seq::empty());
        assert(seq![(node, value)] + Seq::<Entry>::empty() =~= seq![(node, value)]);
        assert(weight(Seq::<Entry>::empty()) == 0);
    } else if s[0].0 < node {
        assert(well_formed(s.drop_first()));
        lemma_insert_weight(s.drop_first(), value, node);
        lemma_weight_push_front(s[0], stack_insert(s.drop_first(), value, node));
    } else if s[0].0 == node {
        assert(well_formed(s.drop_first()));
        lemma_insert_weight(s.drop_first(), parent_hash_of(s[0].1, value), node + 1);
        lemma_pow2_adds(node as nat, 1);
        lemma2_to64();
        assert(pow2((node + 1) as nat) == pow2(node as nat) * 2);
    } else {
        lemma_weight_push_front((node, value), s);
    }
}

/// Every level of a well-formed ledger is bounded by its weight: an entry
/// at level `k` alone contributes `2^k`.
pub proof fn lemma_weight_bounds_levels(s: Seq<Entry>, k: int)
    requires
        well_formed(s),
        0 <= k < s.len(),
    ensures
        pow2(s[k].0 as nat) <= weight(s),
    decreases s.len(),
{
    if k == 0 {
    } else {
        assert(well_formed(s.drop_first()));
        lemma_weight_bounds_levels(s.drop_first(), k - 1);
    }
}

/// A ledger of weight at most `2^64` has no level above 64.
pub proof fn lemma_levels_bounded(s: Seq<Entry>, k: int)
    requires
        well_formed(s),
        0 <= k < s.len(),
        weight(s) <= pow2(64),
    ensures
        s[k].0 <= 64,
{
    lemma_weight_bounds_levels(s, k);
    if s[k].0 > 64 {
        lemma_pow2_strictly_increases(64, s[k].0 as nat);
    }
}

/// Unfolds the finalize fold by one step from the high end: the entry at
/// the highest level is the outermost left operand.
pub proof fn lemma_finalize_unfold(s: Seq<Entry>)
    requires
        s.len() >= 1,
    ensures
        finalize_of(s) == if s.len() == 1 {
            s[0].1
        } else {
            parent_hash_of(s.last().1, finalize_of(s.drop_last()))
        },
{
    let vals = digests_descending(s);
    assert(s.reverse().len() == s.len());
    assert(vals.len() == s.len());
    assert(s.reverse()[0] == s.last());
    assert(vals[0] == s.last().1);
    if s.len() == 1 {
    } else {
        assert(vals.drop_first() =~= digests_descending(s.drop_last())) by {
            assert(s.reverse().map_values(|e: Entry| e.1).drop_first().len() == s.len() - 1);
            assert forall|k: int| 0 <= k < s.len() - 1 implies vals.drop_first()[k]
                == digests_descending(s.drop_last())[k] by {
                assert(vals.drop_first()[k] == vals[k + 1]);
                assert(vals[k + 1] == s.reverse()[k + 1].1);
                assert(s.reverse()[k + 1] == s[s.len() - (k + 1) - 1]);
                assert(digests_descending(s.drop_last())[k] == s.drop_last().reverse()[k].1);
                assert(s.drop_last().reverse()[k] == s.drop_last()[s.len() - 1 - k - 1]);
                assert(s.drop_last()[s.len() - 1 - k - 1] == s[s.len() - k - 2]);
            }
        }
    }
}

} // verus!
