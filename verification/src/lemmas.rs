//! Facts about the model on which the proofs of the tree's operations rest.

use vstd::prelude::*;
use vstd::arithmetic::power2::{pow2, lemma_pow2_unfold};
use crate::model::{ancestor, layer_at, layer_len};

verus! {

/// The layer at `level` has as many nodes as `layer_len` says.
pub proof fn lemma_layer_at_len<F>(hash: spec_fn(F, F) -> F, zero: F, leaves: Seq<F>, level: nat)
    ensures
        layer_at(hash, zero, leaves, level).len() == layer_len(leaves.len(), level),
    decreases level,
{
    if level > 0 {
        lemma_layer_at_len(hash, zero, leaves, (level - 1) as nat);
    }
}

/// A tree with one leaf more has, at every level, one node more than the
/// index of that leaf's ancestor.
pub proof fn lemma_layer_len_after_push(n: nat, level: nat)
    ensures
        layer_len(n + 1, level) == ancestor(n, level) + 1,
    decreases level,
{
    if level > 0 {
        lemma_layer_len_after_push(n, (level - 1) as nat);
    }
}

/// The filled nodes of a level are all of its nodes but at most one.
pub proof fn lemma_layer_len_bounds(n: nat, level: nat)
    ensures
        ancestor(n, level) <= layer_len(n, level) <= ancestor(n, level) + 1,
    decreases level,
{
    if level > 0 {
        lemma_layer_len_bounds(n, (level - 1) as nat);
    }
}

/// The ancestor of a leaf that the tree holds is a node that the tree holds.
pub proof fn lemma_ancestor_in_layer(n: nat, index: nat, level: nat)
    requires
        index < n,
    ensures
        ancestor(index, level) < layer_len(n, level),
    decreases level,
{
    if level > 0 {
        lemma_ancestor_in_layer(n, index, (level - 1) as nat);
    }
}

/// Below the capacity of a tree of depth `depth`, the ancestor of a leaf at
/// `level` lies below the capacity of a tree of the remaining depth.
pub proof fn lemma_ancestor_below_capacity(index: nat, depth: nat, level: nat)
    requires
        level <= depth,
        index < pow2(depth),
    ensures
        ancestor(index, level) < pow2((depth - level) as nat),
    decreases level,
{
    if level > 0 {
        lemma_ancestor_below_capacity(index, depth, (level - 1) as nat);
        lemma_pow2_unfold((depth - level + 1) as nat);
    }
}

/// A tree without leaves has no node at any level.
pub proof fn lemma_layer_len_of_empty(level: nat)
    ensures
        layer_len(0, level) == 0,
    decreases level,
{
    if level > 0 {
        lemma_layer_len_of_empty((level - 1) as nat);
    }
}

/// A tree that holds no more leaves than its capacity has at most one node
/// in its top layer.
pub proof fn lemma_top_layer_len(n: nat, depth: nat)
    requires
        n <= pow2(depth),
    ensures
        layer_len(n, depth) <= 1,
        n > 0 ==> layer_len(n, depth) == 1,
        n == 0 ==> layer_len(n, depth) == 0,
{
    vstd::arithmetic::power2::lemma2_to64();
    if n > 0 {
        lemma_layer_len_after_push((n - 1) as nat, depth);
        lemma_ancestor_below_capacity((n - 1) as nat, depth, depth);
    } else {
        lemma_layer_len_of_empty(depth);
    }
}

/// The ancestor of the next leaf is the ancestor of this one, or the node
/// after it.
pub proof fn lemma_ancestor_of_next(index: nat, level: nat)
    ensures
        ancestor(index, level) <= ancestor(index + 1, level) <= ancestor(index, level) + 1,
    decreases level,
{
    if level > 0 {
        lemma_ancestor_of_next(index, (level - 1) as nat);
    }
}

/// Where the ancestor of a leaf at `level` is a left child, that leaf and
/// the next one have the same ancestors above `level`.
pub proof fn lemma_shared_ancestor(index: nat, level: nat, above: nat)
    requires
        ancestor(index, level) % 2 == 0,
        level < above,
    ensures
        ancestor(index + 1, above) == ancestor(index, above),
    decreases above,
{
    lemma_ancestor_of_next(index, level);
    if above > level + 1 {
        lemma_shared_ancestor(index, level, (above - 1) as nat);
    }
}

/// Overwriting one leaf changes, at each level, at most the ancestor of that
/// leaf.
pub proof fn lemma_update_is_local<F>(
    hash: spec_fn(F, F) -> F,
    zero: F,
    leaves: Seq<F>,
    index: nat,
    element: F,
    level: nat,
)
    requires
        index < leaves.len(),
    ensures
        layer_at(hash, zero, leaves.update(index as int, element), level).len() == layer_at(
            hash,
            zero,
            leaves,
            level,
        ).len(),
        forall|j: int|
            0 <= j < layer_at(hash, zero, leaves, level).len() && j != ancestor(index, level)
                ==> #[trigger] layer_at(hash, zero, leaves.update(index as int, element), level)[j]
                == layer_at(hash, zero, leaves, level)[j],
    decreases level,
{
    if level > 0 {
        lemma_update_is_local(hash, zero, leaves, index, element, (level - 1) as nat);
    }
}

/// Appending a leaf leaves every node whose subtree was already filled as it
/// was.
pub proof fn lemma_push_keeps_filled<F>(
    hash: spec_fn(F, F) -> F,
    zero: F,
    leaves: Seq<F>,
    element: F,
    level: nat,
)
    ensures
        forall|j: int|
            0 <= j < ancestor(leaves.len(), level) ==> #[trigger] layer_at(
                hash,
                zero,
                leaves.push(element),
                level,
            )[j] == layer_at(hash, zero, leaves, level)[j],
    decreases level,
{
    if level > 0 {
        let below = (level - 1) as nat;
        lemma_push_keeps_filled(hash, zero, leaves, element, below);
        lemma_layer_at_len(hash, zero, leaves, below);
        lemma_layer_at_len(hash, zero, leaves.push(element), below);
        lemma_layer_len_bounds(leaves.len(), below);
        lemma_layer_len_after_push(leaves.len(), below);
    }
}

} // verus!
