//! The mathematical model of the tree: what every layer holds, as a function
//! of the leaves, the default leaf and the combiner.

use vstd::prelude::*;

verus! {

/// The value of an entirely empty subtree rooted at `level`.
pub open spec fn zero_at<F>(hash: spec_fn(F, F) -> F, zero: F, level: nat) -> F
    decreases level,
{
    if level == 0 {
        zero
    } else {
        let below = zero_at(hash, zero, (level - 1) as nat);
        hash(below, below)
    }
}

/// The layer of parents of `below`: one node per pair, a missing right
/// sibling replaced by `pad`.
pub open spec fn layer_above<F>(hash: spec_fn(F, F) -> F, below: Seq<F>, pad: F) -> Seq<F> {
    Seq::new(
        ((below.len() + 1) / 2) as nat,
        |j: int|
            hash(
                below[2 * j],
                if 2 * j + 1 < below.len() {
                    below[2 * j + 1]
                } else {
                    pad
                },
            ),
    )
}

/// The layer at `level` of the tree over `leaves`.
pub open spec fn layer_at<F>(
    hash: spec_fn(F, F) -> F,
    zero: F,
    leaves: Seq<F>,
    level: nat,
) -> Seq<F>
    decreases level,
{
    if level == 0 {
        leaves
    } else {
        layer_above(hash,
            layer_at(hash, zero, leaves, (level - 1) as nat),
            zero_at(hash, zero, (level - 1) as nat),
        )
    }
}

/// The number of nodes at `level` of a tree with `n` leaves.
pub open spec fn layer_len(n: nat, level: nat) -> nat
    decreases level,
{
    if level == 0 {
        n
    } else {
        (layer_len(n, (level - 1) as nat) + 1) / 2
    }
}

/// The number of nodes at `level` whose subtree is entirely filled, in a tree
/// with `n` leaves.
pub open spec fn complete_len(n: nat, level: nat) -> nat
    decreases level,
{
    if level == 0 {
        n
    } else {
        complete_len(n, (level - 1) as nat) / 2
    }
}

/// The index at `level` of the ancestor of leaf `index`.
pub open spec fn ancestor(index: nat, level: nat) -> nat
    decreases level,
{
    if level == 0 {
        index
    } else {
        ancestor(index, (level - 1) as nat) / 2
    }
}

/// The root of the tree of depth `depth` over `leaves`.
pub open spec fn root_of<F>(
    hash: spec_fn(F, F) -> F,
    zero: F,
    leaves: Seq<F>,
    depth: nat,
) -> F {
    let top = layer_at(hash, zero, leaves, depth);
    if top.len() == 0 {
        zero_at(hash, zero, depth)
    } else {
        top[0]
    }
}

/// The node at `level` and `index` of the full tree in which every leaf slot
/// beyond `leaves` holds `zero`, computed from the leaves alone.
pub open spec fn padded_node<F>(
    hash: spec_fn(F, F) -> F,
    zero: F,
    leaves: Seq<F>,
    level: nat,
    index: nat,
) -> F
    decreases level,
{
    if level == 0 {
        if index < leaves.len() {
            leaves[index as int]
        } else {
            zero
        }
    } else {
        hash(
            padded_node(hash, zero, leaves, (level - 1) as nat, 2 * index),
            padded_node(hash, zero, leaves, (level - 1) as nat, 2 * index + 1),
        )
    }
}

/// The sibling that an authentication path holds at `level` for leaf `index`.
pub open spec fn sibling_at<F>(
    hash: spec_fn(F, F) -> F,
    zero: F,
    leaves: Seq<F>,
    index: nat,
    level: nat,
) -> F {
    let layer = layer_at(hash, zero, leaves, level);
    let here: int = ancestor(index, level) as int;
    let there: int = if here % 2 == 0 {
        here + 1
    } else {
        here - 1
    };
    if there < layer.len() {
        layer[there]
    } else {
        zero_at(hash, zero, level)
    }
}

/// The direction bit at `level` for leaf `index`: 0 where the node on the
/// path is a left child, 1 where it is a right child.
pub open spec fn direction_at(index: nat, level: nat) -> nat {
    ancestor(index, level) % 2
}

/// The node reached from `node` by combining it with the first `steps`
/// siblings of a path, each on the side that its direction bit gives.
pub open spec fn climb<F>(
    hash: spec_fn(F, F) -> F,
    node: F,
    siblings: Seq<F>,
    directions: Seq<u128>,
    steps: nat,
) -> F
    decreases steps,
{
    if steps == 0 {
        node
    } else {
        let below = climb(hash, node, siblings, directions, (steps - 1) as nat);
        if directions[steps - 1] == 0 {
            hash(below, siblings[steps - 1])
        } else {
            hash(siblings[steps - 1], below)
        }
    }
}

/// The node at `level` and `index` of a tree whose leaves fill every slot
/// below that node: the plain recursive hash of the leaves, with no padding.
pub open spec fn full_node<F>(hash: spec_fn(F, F) -> F, leaves: Seq<F>, level: nat, index: nat) -> F
    decreases level,
{
    if level == 0 {
        leaves[index as int]
    } else {
        hash(
            full_node(hash, leaves, (level - 1) as nat, 2 * index),
            full_node(hash, leaves, (level - 1) as nat, 2 * index + 1),
        )
    }
}

/// The leaves of a tree that held `start` and into which `elements` were
/// then inserted one at a time, in order.
pub open spec fn inserted<F>(start: Seq<F>, elements: Seq<F>) -> Seq<F>
    decreases elements.len(),
{
    if elements.len() == 0 {
        start
    } else {
        inserted(start, elements.drop_last()).push(elements.last())
    }
}

} // verus!
