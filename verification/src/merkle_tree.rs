//! The streaming accumulator: a ledger of per-level digests that folds an
//! ordered stream of blocks into one root while holding only one digest
//! per occupied level, exactly as a binary ripple-carry counter holds one
//! carry bit per position.

use vstd::prelude::*;
use vstd::arithmetic::power2::{pow2, lemma_pow2_strictly_increases, lemma2_to64};
use vstd::slice::slice_to_vec;
use vstd::slice::slice_index_get;

use crate::hashing::{leaf_hash_of, parent_hash_of, sha256_digest};
use crate::model::{
    Entry, well_formed, weight, stack_insert, fold_right_digests, finalize_of, root_state,
    root_of, limit_of, subroot_of, lookup, lemma_insert_well_formed, lemma_insert_weight,
    lemma_finalize_unfold, lemma_levels_bounded,
};

verus! {

/// The accumulator state: one digest per occupied level, kept in strictly
/// ascending level order. After `n` level-0 insertions from empty, the
/// occupied levels are exactly the set bits of `n`, and the digest at
/// level `k` is the root of the `2^k` most recently folded leaves.
pub struct Stack {
    entries: Vec<(i32, Vec<u8>)>,
}

impl View for Stack {
    type V = Seq<Entry>;

    closed spec fn view(&self) -> Seq<Entry> {
        self.entries@.map_values(|e: (i32, Vec<u8>)| (e.0 as int, e.1@))
    }
}

impl Stack {
    /// An empty accumulator: no level is occupied.
    pub fn new() -> (r: Stack)
        ensures
            r@ == Seq::<Entry>::empty(),
            well_formed(r@),
            weight(r@) == 0,
    {
        let r = Stack { entries: Vec::new() };
        proof {
            assert(r@ =~= Seq::<Entry>::empty());
        }
        r
    }

    /// The digest stored at `node`, if that level is occupied.
    pub fn get(&self, node: i32) -> (r: Option<&Vec<u8>>)
        ensures
            match r {
                Some(v) => lookup(self@, node as int) == Some(v@),
                None => lookup(self@, node as int) is None,
            },
    {
        let mut k: usize = 0;
        proof {
            assert(self@.skip(0) =~= self@);
        }
        while k < self.entries.len()
            invariant
                0 <= k <= self@.len(),
                self@.len() == self.entries@.len(),
                lookup(self@, node as int) == lookup(self@.skip(k as int), node as int),
            decreases self@.len() - k,
        {
            proof {
                assert(self@.skip(k as int)[0] == self@[k as int]);
                assert(self@.skip(k as int).drop_first() =~= self@.skip(k as int + 1));
            }
            let e = &self.entries[k];
            if e.0 == node {
                return Some(&e.1);
            }
            k += 1;
        }
        proof {
            assert(self@.skip(k as int) =~= Seq::<Entry>::empty());
        }
        None
    }
}

/// The accumulator's operations: leaf and parent hashing, carry-style
/// insertion, finalization, and the derived whole-stream computations.
pub struct MerkleTree;

impl MerkleTree {
    /// The digest a block contributes as a leaf: the SHA-256 hash of its
    /// bytes as they stand, with no tag or length prefix.
    pub fn leaf_hash(node: &[u8]) -> (r: Vec<u8>)
        ensures
            r@ == leaf_hash_of(node@),
            r@.len() == 32,
    {
        sha256_digest(node)
    }

    /// The digest of an inner node: the SHA-256 hash of the left bytes
    /// followed by the right bytes. The operands may have any length;
    /// only the output is fixed at 32 bytes.
    pub fn parent_hash(left: &[u8], right: &[u8]) -> (r: Vec<u8>)
        ensures
            r@ == parent_hash_of(left@, right@),
            r@.len() == 32,
    {
        let mut buf = slice_to_vec(left);
        let mut i: usize = 0;
        while i < right.len()
            invariant
                i <= right@.len(),
                buf@ == left@ + right@.take(i as int),
            decreases right@.len() - i,
        {
            buf.push(*slice_index_get(right, i));
            i += 1;
            proof {
                assert(buf@ =~= left@ + right@.take(i as int));
            }
        }
        proof {
            assert(left@ + right@.take(right@.len() as int) =~= left@ + right@);
        }
        sha256_digest(buf.as_slice())
    }

    /// Folds the digests right to left with `parent_hash`: the last two
    /// combine first, and the first digest ends up as the outermost left
    /// operand. An empty collection folds to the empty byte sequence; a
    /// single digest is returned as it stands.
    pub fn fold_right(col: &Vec<Vec<u8>>) -> (r: Vec<u8>)
        ensures
            r@ == fold_right_digests(col.deep_view()),
    {
        let ghost dv = col.deep_view();
        if col.is_empty() {
            return Vec::new();
        }
        let mut result = slice_to_vec(col[col.len() - 1].as_slice());
        let mut i: usize = col.len() - 1;
        proof {
            assert(dv.skip(i as int) =~= seq![dv[i as int]]);
        }
        while i > 0
            invariant
                0 <= i < dv.len(),
                dv.len() == col@.len(),
                dv == col.deep_view(),
                result@ == fold_right_digests(dv.skip(i as int)),
            decreases i,
        {
            i = i - 1;
            result = Self::parent_hash(col[i].as_slice(), result.as_slice());
            proof {
                assert(dv[i as int] =~= col@[i as int]@);
                assert(dv.skip(i as int)[0] == dv[i as int]);
                assert(dv.skip(i as int).drop_first() =~= dv.skip(i as int + 1));
                assert(dv.skip(i as int).len() >= 2);
            }
        }
        proof {
            assert(dv.skip(0) =~= dv);
        }
        result
    }

    /// Inserts a digest at `node`, carrying upward: while the level is
    /// occupied, the stored digest (left) combines with the incoming one
    /// (right) and the pair moves one level up; the first free level
    /// takes the result. The weight bound is what keeps every level, and
    /// so every carry, within range.
    pub fn insert(stack: Stack, value: &[u8], node: i32) -> (r: Stack)
        requires
            well_formed(stack@),
            node >= 0,
            weight(stack@) + pow2(node as nat) <= pow2(64),
        ensures
            r@ == stack_insert(stack@, value@, node as int),
            well_formed(r@),
            weight(r@) == weight(stack@) + pow2(node as nat),
        decreases stack@.len(),
    {
        let ghost s0 = stack@;
        proof {
            lemma_insert_well_formed(s0, value@, node as int);
            lemma_insert_weight(s0, value@, node as int);
        }
        let mut entries = stack.entries;
        if entries.is_empty() {
            let mut fresh: Vec<(i32, Vec<u8>)> = Vec::new();
            fresh.push((node, slice_to_vec(value)));
            let r = Stack { entries: fresh };
            proof {
                assert(r@ =~= seq![(node as int, value@)]);
            }
            r
        } else {
            let level0 = entries[0].0;
            proof {
                assert(s0[0] == (entries@[0].0 as int, entries@[0].1@));
            }
            if level0 < node {
                let first = entries.remove(0);
                let rest = Stack { entries };
                proof {
                    assert(rest@ =~= s0.drop_first());
                    assert(weight(s0) == pow2(s0[0].0 as nat) + weight(s0.drop_first()));
                }
                let folded = Self::insert(rest, value, node);
                let mut out = folded.entries;
                out.insert(0, first);
                let r = Stack { entries: out };
                proof {
                    assert(r@ =~= seq![s0[0]] + stack_insert(s0.drop_first(), value@, node as int));
                }
                r
            } else if level0 == node {
                proof {
                    // The occupied level equals `node`, so `node` is bounded
                    // by the total weight and the carry target fits an i32.
                    lemma_levels_bounded(s0, 0);
                }
                let first = entries.remove(0);
                let parent = Self::parent_hash(first.1.as_slice(), value);
                let rest = Stack { entries };
                proof {
                    assert(rest@ =~= s0.drop_first());
                    assert(weight(s0) == pow2(s0[0].0 as nat) + weight(s0.drop_first()));
                    assert(pow2((node + 1) as nat) == pow2(node as nat) * 2) by {
                        vstd::arithmetic::power2::lemma_pow2_adds(node as nat, 1);
                        lemma2_to64();
                    }
                }
                Self::insert(rest, parent.as_slice(), node + 1)
            } else {
                entries.insert(0, (node, slice_to_vec(value)));
                let r = Stack { entries };
                proof {
                    assert(r@ =~= seq![(node as int, value@)] + s0);
                }
                r
            }
        }
    }

    /// Folds the remaining per-level digests into one: levels are taken
    /// in descending order and combined right to left, so the two lowest
    /// levels merge first and the highest level is the outermost left
    /// operand. Empty accumulator: empty bytes. One level: its digest.
    pub fn finalize(stack: Stack) -> (r: Vec<u8>)
        ensures
            r@ == finalize_of(stack@),
    {
        let ghost s0 = stack@;
        let entries = stack.entries;
        if entries.is_empty() {
            proof {
                assert(s0.reverse() =~= Seq::<Entry>::empty());
                assert(s0.reverse().map_values(|e: Entry| e.1) =~= Seq::<Seq<u8>>::empty());
            }
            return Vec::new();
        }
        let mut acc = slice_to_vec(entries[0].1.as_slice());
        let mut k: usize = 1;
        proof {
            assert(s0.take(1) =~= seq![s0[0]]);
            lemma_finalize_unfold(s0.take(1));
        }
        while k < entries.len()
            invariant
                1 <= k <= s0.len(),
                s0.len() == entries@.len(),
                s0 == entries@.map_values(|e: (i32, Vec<u8>)| (e.0 as int, e.1@)),
                acc@ == finalize_of(s0.take(k as int)),
            decreases s0.len() - k,
        {
            acc = Self::parent_hash(entries[k].1.as_slice(), acc.as_slice());
            k += 1;
            proof {
                lemma_finalize_unfold(s0.take(k as int));
                assert(s0.take(k as int).last() == s0[k as int - 1]);
                assert(s0.take(k as int).drop_last() =~= s0.take(k as int - 1));
            }
        }
        proof {
            assert(s0.take(s0.len() as int) =~= s0);
        }
        acc
    }

    /// The root of a block stream: empty bytes when the stream is empty,
    /// else every block's leaf digest inserted at level 0 in order and
    /// the accumulator finalized. One left-to-right pass, holding one
    /// digest per occupied level.
    pub fn root(stream: &Vec<Vec<u8>>) -> (r: Vec<u8>)
        ensures
            r@ == root_of(stream.deep_view()),
    {
        let ghost dv = stream.deep_view();
        if stream.is_empty() {
            return Vec::new();
        }
        let mut stack = Stack::new();
        let mut i: usize = 0;
        proof {
            assert(dv.take(0) =~= Seq::<Seq<u8>>::empty());
            lemma2_to64();
        }
        while i < stream.len()
            invariant
                0 <= i <= dv.len(),
                dv.len() == stream@.len(),
                dv == stream.deep_view(),
                well_formed(stack@),
                weight(stack@) == i as nat,
                stack@ == root_state(dv.take(i as int)),
            decreases dv.len() - i,
        {
            let lh = Self::leaf_hash(stream[i].as_slice());
            proof {
                lemma2_to64();
                assert(weight(stack@) + pow2(0) <= pow2(64));
                assert(dv[i as int] =~= stream@[i as int]@);
            }
            stack = Self::insert(stack, lh.as_slice(), 0);
            i += 1;
            proof {
                assert(dv.take(i as int).drop_last() =~= dv.take(i as int - 1));
                assert(dv.take(i as int).last() == dv[i as int - 1]);
            }
        }
        proof {
            assert(dv.take(dv.len() as int) =~= dv);
        }
        Self::finalize(stack)
    }

    /// The first `limit` blocks of the stream, in their original order
    /// and with their original bytes; all of them when the stream is
    /// shorter.
    pub fn limit(stream: &Vec<Vec<u8>>, limit: usize) -> (r: Vec<Vec<u8>>)
        ensures
            r.deep_view() == limit_of(stream.deep_view(), limit as nat),
    {
        let ghost dv = stream.deep_view();
        let n = if limit < stream.len() {
            limit
        } else {
            stream.len()
        };
        let mut out: Vec<Vec<u8>> = Vec::new();
        let mut i: usize = 0;
        while i < n
            invariant
                0 <= i <= n,
                n <= stream@.len(),
                n == if limit <= stream@.len() {
                    limit as int
                } else {
                    stream@.len() as int
                },
                out@.len() == i as int,
                forall|j: int| 0 <= j < i ==> (#[trigger] out@[j])@ == stream@[j]@,
            decreases n - i,
        {
            out.push(slice_to_vec(stream[i].as_slice()));
            i += 1;
        }
        proof {
            assert(dv.len() == stream@.len());
            assert(limit_of(dv, limit as nat).len() == n as int);
            assert forall|j: int| 0 <= j < n implies out.deep_view()[j] == limit_of(
                dv,
                limit as nat,
            )[j] by {
                assert(out.deep_view()[j] =~= out@[j]@);
                assert(dv[j] =~= stream@[j]@);
            }
            assert(out.deep_view() =~= limit_of(dv, limit as nat));
        }
        out
    }

    /// The root of the first `2^index` blocks, recomputed from scratch
    /// over that prefix. Levels stay within 0..=31 so the prefix size
    /// fits the machine word.
    pub fn subroot(stream: &Vec<Vec<u8>>, index: i32) -> (r: Vec<u8>)
        requires
            0 <= index <= 31,
        ensures
            r@ == subroot_of(stream.deep_view(), index as nat),
    {
        let mut lim: usize = 1;
        let mut j: i32 = 0;
        proof {
            lemma2_to64();
        }
        while j < index
            invariant
                0 <= j <= index,
                index <= 31,
                lim == pow2(j as nat),
            decreases index - j,
        {
            proof {
                lemma2_to64();
                if j < 30 {
                    lemma_pow2_strictly_increases(j as nat, 30);
                }
                assert(pow2(j as nat) <= 0x40000000);
            }
            lim = lim * 2;
            j += 1;
            proof {
                assert(pow2(j as nat) == pow2((j - 1) as nat) * 2) by {
                    vstd::arithmetic::power2::lemma_pow2_adds((j - 1) as nat, 1);
                    lemma2_to64();
                }
            }
        }
        let limited = Self::limit(stream, lim);
        Self::root(&limited)
    }
}

} // verus!
