//! Merkle accumulator: an ordered list of leaf digests reduced to one root.

use crate::digest::{hash_pair, hash_two, zero_digest, DIGEST_LEN};
use vstd::prelude::*;

verus! {

/// The leaves as byte sequences.
pub open spec fn leaf_views(leaves: Seq<Vec<u8>>) -> Seq<Seq<u8>> {
    Seq::new(leaves.len(), |i: int| leaves[i]@)
}

/// One reduction step: adjacent elements are paired left to right and each
/// pair is replaced by its digest; a lone last element is carried unchanged.
pub open spec fn next_level(level: Seq<Seq<u8>>) -> Seq<Seq<u8>>
    decreases level.len(),
{
    if level.len() < 2 {
        level
    } else {
        seq![hash_pair(level[0], level[1])] + next_level(level.skip(2))
    }
}

/// A reduction step halves the length, rounding up.
pub proof fn lemma_next_level_len(level: Seq<Seq<u8>>)
    ensures
        next_level(level).len() == (level.len() + 1) / 2,
    decreases level.len(),
{
    if level.len() >= 2 {
        lemma_next_level_len(level.skip(2));
    }
}

/// The Merkle root of `leaves`: the all-zero digest for no leaves, the leaf
/// itself for one, and otherwise the root of the next level.
pub open spec fn merkle_root(leaves: Seq<Seq<u8>>) -> Seq<u8>
    decreases leaves.len(),
{
    if leaves.len() == 0 {
        zero_digest()
    } else if leaves.len() == 1 {
        leaves[0]
    } else {
        proof {
            lemma_next_level_len(leaves);
        }
        merkle_root(next_level(leaves))
    }
}

/// A copy of `bytes`.
pub fn copy_bytes(bytes: &[u8]) -> (out: Vec<u8>)
    ensures
        out@ == bytes@,
{
    let mut out: Vec<u8> = Vec::new();
    crate::digest::append_bytes(&mut out, bytes);
    out
}

/// One reduction step over `level`.
fn reduce_level(level: &Vec<Vec<u8>>) -> (next: Vec<Vec<u8>>)
    ensures
        leaf_views(next@) == next_level(leaf_views(level@)),
        level@.len() == 2 ==> next@.len() == 1 && next@[0]@.len() == DIGEST_LEN,
{
    let ghost full = leaf_views(level@);
    let mut next: Vec<Vec<u8>> = Vec::new();
    let mut i: usize = 0;
    assert(full.skip(0) == full);
    while i < level.len()
        invariant
            i <= level@.len(),
            full == leaf_views(level@),
            leaf_views(next@) + next_level(full.skip(i as int)) == next_level(full),
            i % 2 == 0 || i == level@.len(),
            next@.len() == (i + 1) / 2,
            level@.len() == 2 && i == 2 ==> next@[0]@.len() == DIGEST_LEN,
        decreases level@.len() - i,
    {
        let ghost rest = full.skip(i as int);
        if level.len() - i >= 2 {
            let parent = hash_two(level[i].as_slice(), level[i + 1].as_slice());
            next.push(parent);
            proof {
                assert(rest.skip(2) == full.skip(i + 2));
            }
            i = i + 2;
        } else {
            let carried = copy_bytes(level[i].as_slice());
            next.push(carried);
            i = i + 1;
        }
    }
    next
}

/// Computes the Merkle root of `leaves`.
///
/// No leaves give the all-zero digest and a single leaf is its own root.
/// Otherwise adjacent elements are hashed pairwise, level by level, with a
/// lone last element carried up unhashed, until one element is left.
pub fn compute_merkle_root(leaves: &[Vec<u8>]) -> (root: Vec<u8>)
    ensures
        root@ == merkle_root(leaf_views(leaves@)),
        leaves@.len() != 1 ==> root@.len() == DIGEST_LEN,
{
    if leaves.len() == 0 {
        let zero: Vec<u8> = vec![0u8; DIGEST_LEN];
        return zero;
    }
    let mut level: Vec<Vec<u8>> = Vec::new();
    let mut i: usize = 0;
    while i < leaves.len()
        invariant
            i <= leaves@.len(),
            leaf_views(level@) == leaf_views(leaves@).take(i as int),
        decreases leaves@.len() - i,
    {
        let leaf = copy_bytes(leaves[i].as_slice());
        level.push(leaf);
        i = i + 1;
        assert(leaf_views(leaves@).take(i as int) == leaf_views(leaves@).take(i - 1).push(
            leaves@[i - 1]@,
        ));
    }
    assert(leaf_views(level@) == leaf_views(leaves@));
    let ghost mut hashed = false;
    while level.len() > 1
        invariant
            level@.len() >= 1,
            merkle_root(leaf_views(level@)) == merkle_root(leaf_views(leaves@)),
            !hashed ==> level@.len() == leaves@.len(),
            hashed && level@.len() == 1 ==> level@[0]@.len() == DIGEST_LEN,
        decreases level@.len(),
    {
        proof {
            lemma_next_level_len(leaf_views(level@));
            hashed = true;
        }
        level = reduce_level(&level);
    }
    copy_bytes(level[0].as_slice())
}

/// The root of the empty tree is the all-zero digest.
pub proof fn lemma_root_of_no_leaves()
    ensures
        merkle_root(Seq::<Seq<u8>>::empty()) == zero_digest(),
        zero_digest().len() == DIGEST_LEN,
        forall|i: int| 0 <= i < DIGEST_LEN ==> zero_digest()[i] == 0u8,
{
}

/// The root of a single leaf is that leaf, unhashed.
pub proof fn lemma_root_of_one_leaf(x: Seq<u8>)
    ensures
        merkle_root(seq![x]) == x,
{
}

/// The root of two leaves is the digest of the first followed by the second.
pub proof fn lemma_root_of_two_leaves(a: Seq<u8>, b: Seq<u8>)
    ensures
        merkle_root(seq![a, b]) == hash_pair(a, b),
{
    let leaves = seq![a, b];
    assert(next_level(leaves.skip(2)) == Seq::<Seq<u8>>::empty());
    lemma_root_of_one_leaf(hash_pair(a, b));
}

/// With three leaves the third is carried to the second level, not
/// duplicated: the root is the digest of the first pair's digest followed by
/// the third leaf.
pub proof fn lemma_root_of_three_leaves(a: Seq<u8>, b: Seq<u8>, c: Seq<u8>)
    ensures
        merkle_root(seq![a, b, c]) == hash_pair(hash_pair(a, b), c),
{
    let leaves = seq![a, b, c];
    assert(next_level(leaves.skip(2)) == seq![c]);
    assert(next_level(leaves) == seq![hash_pair(a, b), c]);
    lemma_root_of_two_leaves(hash_pair(a, b), c);
}

/// Where a tree of `n` leaves, at least two, divides into its two subtrees:
/// behind the largest power of two below `n`.
pub open spec fn split_point(n: nat) -> nat
    decreases n,
{
    if n <= 2 {
        1
    } else {
        2 * split_point((n + 1) / 2)
    }
}

/// The split point lies inside the tree, at least half way, and is even but
/// for a tree of two leaves.
pub proof fn lemma_split_point(n: nat)
    requires
        n >= 2,
    ensures
        1 <= split_point(n) < n <= 2 * split_point(n),
        n > 2 ==> split_point(n) % 2 == 0,
    decreases n,
{
    if n > 2 {
        lemma_split_point((n + 1) / 2);
    }
}

/// A reduction step works on the two parts of a level apart, where the first
/// part holds an even number of elements.
pub proof fn lemma_next_level_concat(first: Seq<Seq<u8>>, second: Seq<Seq<u8>>)
    requires
        first.len() % 2 == 0,
    ensures
        next_level(first + second) == next_level(first) + next_level(second),
    decreases first.len(),
{
    let whole = first + second;
    if first.len() > 0 {
        assert(whole.skip(2) =~= first.skip(2) + second);
        lemma_next_level_concat(first.skip(2), second);
    }
}

/// The root of two or more leaves is the digest of the roots of two
/// subtrees: the leaves before the split point, a full tree over a power of
/// two of leaves, and the leaves from it on.
pub proof fn lemma_root_of_subtrees(leaves: Seq<Seq<u8>>)
    requires
        leaves.len() >= 2,
    ensures
        merkle_root(leaves) == hash_pair(
            merkle_root(leaves.take(split_point(leaves.len()) as int)),
            merkle_root(leaves.skip(split_point(leaves.len()) as int)),
        ),
    decreases leaves.len(),
{
    let n = leaves.len();
    let k = split_point(n) as int;
    if n == 2 {
        assert(leaves =~= seq![leaves[0], leaves[1]]);
        lemma_root_of_two_leaves(leaves[0], leaves[1]);
    } else {
        let left = leaves.take(k);
        let right = leaves.skip(k);
        let reduced = next_level(leaves);
        let half = split_point(((n + 1) / 2) as nat) as int;
        lemma_split_point(n);
        lemma_next_level_len(leaves);
        lemma_next_level_len(left);
        assert(leaves =~= left + right);
        lemma_next_level_concat(left, right);
        assert(reduced.take(half) =~= next_level(left));
        assert(reduced.skip(half) =~= next_level(right));
        lemma_root_of_subtrees(reduced);
    }
}

/// The root depends on the leaf sequence alone: equal sequences have equal
/// roots.
pub proof fn lemma_root_is_deterministic(first: Seq<Seq<u8>>, second: Seq<Seq<u8>>)
    requires
        first.len() == second.len(),
        forall|i: int| 0 <= i < first.len() ==> first[i] == second[i],
    ensures
        merkle_root(first) == merkle_root(second),
{
    assert(first =~= second);
}

} // verus!
