//! What holds of every tree: the root against a computation from the leaves
//! alone, authentication paths, and the ways of filling a tree against each
//! other.

use vstd::prelude::*;
use vstd::arithmetic::power2::{pow2, lemma_pow2_unfold};
use crate::lemmas::{lemma_ancestor_in_layer, lemma_layer_at_len, lemma_top_layer_len};
use crate::model::{
    ancestor, climb, direction_at, full_node, inserted, layer_at, layer_len, padded_node, root_of,
    sibling_at, zero_at,
};

verus! {

/// Every node that the tree holds is the node of the same place in the full
/// tree whose missing leaves are the default leaf, and every node of that
/// full tree beyond what the tree holds is the default value of its level.
pub proof fn lemma_layers_match_padded_tree<F>(
    hash: spec_fn(F, F) -> F,
    zero: F,
    leaves: Seq<F>,
    level: nat,
    index: nat,
)
    ensures
        index < layer_len(leaves.len(), level) ==> layer_at(hash, zero, leaves, level)[index as int]
            == padded_node(hash, zero, leaves, level, index),
        index >= layer_len(leaves.len(), level) ==> padded_node(hash, zero, leaves, level, index)
            == zero_at(hash, zero, level),
    decreases level,
{
    if level > 0 {
        let below = (level - 1) as nat;
        lemma_layers_match_padded_tree(hash, zero, leaves, below, 2 * index);
        lemma_layers_match_padded_tree(hash, zero, leaves, below, 2 * index + 1);
        lemma_layer_at_len(hash, zero, leaves, below);
    }
}

/// The root of a tree, however few leaves it holds, is the root of the full
/// tree over the same leaves followed by default leaves, computed from the
/// leaves alone: a missing right sibling counts, at every level, as the
/// default value of that level.
pub proof fn lemma_root_is_padded_root<F>(hash: spec_fn(F, F) -> F, zero: F, leaves: Seq<F>, depth: nat)
    ensures
        root_of(hash, zero, leaves, depth) == padded_node(hash, zero, leaves, depth, 0),
{
    lemma_layers_match_padded_tree(hash, zero, leaves, depth, 0);
    lemma_layer_at_len(hash, zero, leaves, depth);
}

/// Where the leaves fill every slot below a node, the padded computation of
/// that node never reaches for the default leaf.
pub proof fn lemma_padded_node_of_filled<F>(
    hash: spec_fn(F, F) -> F,
    zero: F,
    leaves: Seq<F>,
    level: nat,
    index: nat,
)
    requires
        (index + 1) * pow2(level) <= leaves.len(),
    ensures
        padded_node(hash, zero, leaves, level, index) == full_node(hash, leaves, level, index),
    decreases level,
{
    if level > 0 {
        let below = (level - 1) as nat;
        lemma_pow2_unfold(level);
        assert((2 * index + 2) * pow2(below) == (index + 1) * pow2(level)) by (nonlinear_arith)
            requires
                pow2(level) == 2 * pow2(below),
        ;
        assert((2 * index + 1) * pow2(below) <= (2 * index + 2) * pow2(below)) by (nonlinear_arith);
        lemma_padded_node_of_filled(hash, zero, leaves, below, 2 * index);
        lemma_padded_node_of_filled(hash, zero, leaves, below, 2 * index + 1);
    } else {
        vstd::arithmetic::power2::lemma2_to64();
    }
}

/// The root of a tree whose leaves fill its capacity is the plain recursive
/// hash of those leaves, in which the default leaf has no part.
pub proof fn lemma_full_tree_root<F>(hash: spec_fn(F, F) -> F, zero: F, leaves: Seq<F>, depth: nat)
    requires
        leaves.len() == pow2(depth),
    ensures
        root_of(hash, zero, leaves, depth) == full_node(hash, leaves, depth, 0),
{
    lemma_root_is_padded_root(hash, zero, leaves, depth);
    assert((0 + 1) * pow2(depth) == pow2(depth)) by (nonlinear_arith);
    lemma_padded_node_of_filled(hash, zero, leaves, depth, 0);
}

/// Overwriting a leaf with the value that it holds leaves the root as it
/// was.
pub proof fn lemma_update_same_value_keeps_root<F>(
    hash: spec_fn(F, F) -> F,
    zero: F,
    leaves: Seq<F>,
    depth: nat,
    index: nat,
)
    requires
        index < leaves.len(),
    ensures
        leaves.update(index as int, leaves[index as int]) == leaves,
        root_of(hash, zero, leaves.update(index as int, leaves[index as int]), depth) == root_of(
            hash,
            zero,
            leaves,
            depth,
        ),
{
    assert(leaves.update(index as int, leaves[index as int]) =~= leaves);
}

/// Inserting elements one at a time appends them, in order.
pub proof fn lemma_inserted_is_concat<F>(start: Seq<F>, elements: Seq<F>)
    ensures
        inserted(start, elements) == start + elements,
    decreases elements.len(),
{
    if elements.len() == 0 {
        assert(start + elements =~= start);
    } else {
        lemma_inserted_is_concat(start, elements.drop_last());
        assert((start + elements.drop_last()).push(elements.last()) =~= start + elements);
    }
}

/// Inserting elements one at a time into a tree without leaves gives the
/// root of the tree that is built over those elements at once.
pub proof fn lemma_inserts_match_construction<F>(
    hash: spec_fn(F, F) -> F,
    zero: F,
    elements: Seq<F>,
    depth: nat,
)
    ensures
        inserted(Seq::<F>::empty(), elements) == elements,
        root_of(hash, zero, inserted(Seq::<F>::empty(), elements), depth) == root_of(
            hash,
            zero,
            elements,
            depth,
        ),
{
    lemma_inserted_is_concat(Seq::<F>::empty(), elements);
    assert(Seq::<F>::empty() + elements =~= elements);
}

/// Combining a leaf with the first `steps` siblings of its path gives the
/// ancestor of that leaf at level `steps`.
pub proof fn lemma_climb_reaches_ancestor<F>(
    hash: spec_fn(F, F) -> F,
    zero: F,
    leaves: Seq<F>,
    index: nat,
    siblings: Seq<F>,
    directions: Seq<u128>,
    steps: nat,
)
    requires
        index < leaves.len(),
        steps <= siblings.len(),
        steps <= directions.len(),
        forall|l: int|
            0 <= l < steps ==> #[trigger] siblings[l] == sibling_at(hash, zero, leaves, index, l as nat),
        forall|l: int| 0 <= l < steps ==> #[trigger] directions[l] == direction_at(index, l as nat),
    ensures
        climb(hash, leaves[index as int], siblings, directions, steps) == layer_at(
            hash,
            zero,
            leaves,
            steps,
        )[ancestor(index, steps) as int],
    decreases steps,
{
    if steps > 0 {
        let below = (steps - 1) as nat;
        lemma_climb_reaches_ancestor(hash, zero, leaves, index, siblings, directions, below);
        lemma_ancestor_in_layer(leaves.len(), index, below);
        lemma_ancestor_in_layer(leaves.len(), index, steps);
        lemma_layer_at_len(hash, zero, leaves, below);
        lemma_layer_at_len(hash, zero, leaves, steps);
        assert(siblings[below as int] == sibling_at(hash, zero, leaves, index, below));
        assert(directions[below as int] == direction_at(index, below));
    }
}

/// Combining a leaf with the siblings of its authentication path, each on
/// the side that its direction bit gives, yields the root.
pub proof fn lemma_path_leads_to_root<F>(
    hash: spec_fn(F, F) -> F,
    zero: F,
    leaves: Seq<F>,
    depth: nat,
    index: nat,
    siblings: Seq<F>,
    directions: Seq<u128>,
)
    requires
        index < leaves.len() <= pow2(depth),
        siblings.len() == depth,
        directions.len() == depth,
        forall|l: int|
            0 <= l < depth ==> #[trigger] siblings[l] == sibling_at(hash, zero, leaves, index, l as nat),
        forall|l: int| 0 <= l < depth ==> #[trigger] directions[l] == direction_at(index, l as nat),
    ensures
        climb(hash, leaves[index as int], siblings, directions, depth) == root_of(
            hash,
            zero,
            leaves,
            depth,
        ),
{
    lemma_climb_reaches_ancestor(hash, zero, leaves, index, siblings, directions, depth);
    lemma_ancestor_in_layer(leaves.len(), index, depth);
    lemma_layer_at_len(hash, zero, leaves, depth);
    lemma_top_layer_len(leaves.len(), depth);
}

} // verus!
