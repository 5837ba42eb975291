//! The tree itself: construction, root, authentication paths and the three
//! ways of changing the leaves.

use vstd::prelude::*;
use vstd::arithmetic::power2::{
    lemma2_to64, lemma2_to64_rest, lemma_pow2_adds, lemma_pow2_strictly_increases,
    lemma_pow2_unfold, pow2,
};
use crate::error::MerkleError;
use crate::hasher::{combine, hash_fn_of, is_hash_fn};
use crate::lemmas::{
    lemma_ancestor_below_capacity, lemma_ancestor_in_layer, lemma_layer_at_len,
    lemma_layer_len_after_push, lemma_layer_len_bounds, lemma_push_keeps_filled,
    lemma_shared_ancestor, lemma_top_layer_len, lemma_update_is_local,
};
use crate::model::{ancestor, direction_at, layer_above, layer_at, root_of, sibling_at, zero_at};

verus! {

/// The deepest tree that can be built: its capacity still fits in `u128`.
pub const MAX_LEVELS: usize = 127;

/// The canonical default leaf, as a decimal string, for trees over the scalar
/// field of BN254 that are given no default leaf of their own.
pub const DEFAULT_ZERO: &'static str =
    "21663839004416932945382355908790599225266501822907911457504978515578255421292";

/// The decimal string of the default leaf of a tree: the one that was given,
/// or the canonical constant where none was.
pub fn zero_element_text(zero_element: Option<String>) -> (text: String)
    ensures
        text@ == match zero_element {
            Some(given) => given@,
            None => DEFAULT_ZERO@,
        },
{
    match zero_element {
        Some(given) => given,
        None => DEFAULT_ZERO.to_owned(),
    }
}

/// A Merkle tree of fixed depth whose leaves can be appended and overwritten.
///
/// `layers[0]` holds the leaves in insertion order; `layers[i]` holds the
/// hashes of the pairs of `layers[i - 1]`, a missing right sibling replaced
/// by `zeros[i - 1]`.
#[derive(Debug)]
pub struct MerkleTree<F, H> {
    pub levels: usize,
    pub capacity: u128,
    pub zeros: Vec<F>,
    pub layers: Vec<Vec<F>>,
    pub hash_fn: H,
}

/// Two to the power `levels`.
pub fn capacity_for(levels: usize) -> (capacity: u128)
    requires
        levels <= MAX_LEVELS,
    ensures
        capacity == pow2(levels as nat),
{
    let mut capacity: u128 = 1;
    let mut i: usize = 0;
    proof {
        lemma2_to64();
    }
    while i < levels
        invariant
            i <= levels <= MAX_LEVELS,
            capacity == pow2(i as nat),
        decreases levels - i,
    {
        proof {
            lemma_pow2_unfold((i + 1) as nat);
            if i + 1 < 127 {
                lemma_pow2_strictly_increases((i + 1) as nat, 127);
            }
            lemma2_to64_rest();
            lemma_pow2_adds(64, 63);
        }
        capacity = capacity * 2;
        i = i + 1;
    }
    capacity
}

impl<F: Copy, H: Fn(F, F) -> F> MerkleTree<F, H> {
    /// The leaves, in insertion order.
    pub open spec fn leaves(&self) -> Seq<F> {
        self.layers@[0]@
    }

    /// The function that the tree's combiner computes.
    pub open spec fn hash(&self) -> spec_fn(F, F) -> F {
        hash_fn_of(self.hash_fn)
    }

    /// The default leaf, which stands in every slot not yet filled.
    pub open spec fn zero(&self) -> F {
        self.zeros@[0]
    }

    /// The depth, the capacity and the table of default values are as the
    /// tree was made with.
    pub open spec fn shape_ok(&self) -> bool {
        &&& is_hash_fn(self.hash_fn)
        &&& 1 <= self.levels <= MAX_LEVELS
        &&& self.capacity == pow2(self.levels as nat)
        &&& self.zeros@.len() == self.levels + 1
        &&& forall|i: int|
            0 <= i <= self.levels ==> #[trigger] self.zeros@[i] == zero_at(
                self.hash(),
                self.zeros@[0],
                i as nat,
            )
        &&& self.layers@.len() == self.levels + 1
    }

    /// Every layer is what its definition gives for the current leaves, and
    /// the leaves fit in the capacity.
    pub open spec fn wf(&self) -> bool {
        &&& self.shape_ok()
        &&& self.leaves().len() <= self.capacity
        &&& forall|i: int|
            0 <= i <= self.levels ==> #[trigger] self.layers@[i]@ == layer_at(
                self.hash(),
                self.zero(),
                self.leaves(),
                i as nat,
            )
    }

    /// Builds a tree of depth `levels` over `elements`, or over no leaves
    /// where none are given. `zero_element` is the default leaf and `hash_fn`
    /// combines every pair of nodes.
    ///
    /// Fails with `CapacityExceeded` exactly when more leaves are given than
    /// a tree of this depth can hold.
    pub fn new(levels: usize, zero_element: F, hash_fn: H, elements: Option<Vec<F>>) -> (r: Result<
        Self,
        MerkleError,
    >)
        requires
            1 <= levels <= MAX_LEVELS,
            is_hash_fn(hash_fn),
        ensures
            r is Err <==> elements is Some && elements->0@.len() > pow2(levels as nat),
            r is Err ==> r->Err_0 == MerkleError::CapacityExceeded,
            r is Ok ==> {
                &&& r->Ok_0.wf()
                &&& r->Ok_0.levels == levels
                &&& r->Ok_0.zero() == zero_element
                &&& r->Ok_0.hash_fn == hash_fn
                &&& r->Ok_0.leaves() == match elements {
                    Some(v) => v@,
                    None => Seq::<F>::empty(),
                }
            },
    {
        let capacity = capacity_for(levels);
        let leaves: Vec<F> = match elements {
            Some(v) => {
                if v.len() as u128 > capacity {
                    return Err(MerkleError::CapacityExceeded);
                }
                v
            },
            None => Vec::new(),
        };
        let mut zeros: Vec<F> = Vec::new();
        let mut layers: Vec<Vec<F>> = Vec::new();
        zeros.push(zero_element);
        layers.push(leaves);
        let mut i: usize = 1;
        while i <= levels
            invariant
                1 <= i <= levels + 1,
                levels <= MAX_LEVELS,
                is_hash_fn(hash_fn),
                zeros@.len() == i,
                layers@.len() == i,
                layers@[0]@ == leaves@,
                forall|k: int| 0 <= k < i ==> #[trigger] zeros@[k] == zero_at(hash_fn_of(hash_fn), zero_element, k as nat),
                forall|k: int| 1 <= k < i ==> (#[trigger] layers@[k])@.len() == 0,
            decreases levels + 1 - i,
        {
            let below = zeros[i - 1];
            zeros.push(combine(&hash_fn, below, below));
            layers.push(Vec::new());
            i = i + 1;
        }
        let mut tree = MerkleTree { levels, capacity, zeros, layers, hash_fn };
        tree.rebuild();
        Ok(tree)
    }

    /// Recomputes every layer above the leaves, from the bottom up. The
    /// layers above the leaves must be empty on entry.
    fn rebuild(&mut self)
        requires
            old(self).shape_ok(),
            old(self).leaves().len() <= old(self).capacity,
            forall|i: int| 1 <= i <= old(self).levels ==> (#[trigger] old(self).layers@[i])@.len() == 0,
        ensures
            final(self).wf(),
            final(self).levels == old(self).levels,
            final(self).capacity == old(self).capacity,
            final(self).zeros == old(self).zeros,
            final(self).hash_fn == old(self).hash_fn,
            final(self).leaves() == old(self).leaves(),
    {
        let mut level: usize = 1;
        while level <= self.levels
            invariant
                1 <= level <= self.levels + 1,
                self.shape_ok(),
                self.levels == old(self).levels,
                self.capacity == old(self).capacity,
                self.zeros == old(self).zeros,
                self.hash_fn == old(self).hash_fn,
                self.leaves() == old(self).leaves(),
                forall|i: int|
                    0 <= i < level ==> #[trigger] self.layers@[i]@ == layer_at(
                        self.hash(),
                        self.zero(),
                        self.leaves(),
                        i as nat,
                    ),
                forall|i: int| level <= i <= self.levels ==> (#[trigger] self.layers@[i])@.len() == 0,
            decreases self.levels + 1 - level,
        {
            let lim: usize = self.layers[level - 1].len() / 2 + self.layers[level - 1].len() % 2;
            let mut i: usize = 0;
            while i < lim
                invariant
                    1 <= level <= self.levels,
                    self.shape_ok(),
                    self.levels == old(self).levels,
                    self.capacity == old(self).capacity,
                    self.zeros == old(self).zeros,
                    self.hash_fn == old(self).hash_fn,
                    self.leaves() == old(self).leaves(),
                    lim == (self.layers@[level - 1]@.len() + 1) / 2,
                    i <= lim,
                    forall|k: int|
                        0 <= k < level ==> #[trigger] self.layers@[k]@ == layer_at(
                            self.hash(),
                            self.zero(),
                            self.leaves(),
                            k as nat,
                        ),
                    forall|k: int| level < k <= self.levels ==> (#[trigger] self.layers@[k])@.len() == 0,
                    self.layers@[level as int]@ == layer_above(
                        self.hash(),
                        self.layers@[level - 1]@,
                        self.zeros@[level - 1],
                    ).subrange(0, i as int),
                decreases lim - i,
            {
                let below_len: usize = self.layers[level - 1].len();
                let left = self.layers[level - 1][i * 2];
                let right = if i * 2 + 1 < below_len {
                    self.layers[level - 1][i * 2 + 1]
                } else {
                    self.zeros[level - 1]
                };
                let node = combine(&self.hash_fn, left, right);
                self.layers[level].push(node);
                i = i + 1;
            }
            level = level + 1;
        }
    }

    /// The root that the tree commits to.
    pub open spec fn spec_root(&self) -> F {
        root_of(self.hash(), self.zero(), self.leaves(), self.levels as nat)
    }

    /// The root: the one node of the top layer, or the default value of that
    /// level while the tree holds no leaf.
    pub fn root(&self) -> (r: F)
        requires
            self.wf(),
        ensures
            r == self.spec_root(),
    {
        if self.layers[self.levels].len() == 0 {
            self.zeros[self.levels]
        } else {
            self.layers[self.levels][0]
        }
    }

    /// The authentication path of leaf `index`: for each level below the
    /// root, from the leaves up, the sibling of the node on the way to the
    /// root (the default value of that level where the sibling does not
    /// exist yet) and the direction bit of that node (0 for a left child, 1
    /// for a right child).
    ///
    /// Fails with `IndexOutOfBounds` exactly when the tree holds no leaf at
    /// `index`.
    pub fn path(&self, index: u128) -> (r: Result<(Vec<F>, Vec<u128>), MerkleError>)
        requires
            self.wf(),
        ensures
            r is Err <==> index >= self.leaves().len(),
            r is Err ==> r->Err_0 == MerkleError::IndexOutOfBounds,
            r is Ok ==> {
                let (siblings, directions) = r->Ok_0;
                &&& siblings@.len() == self.levels
                &&& directions@.len() == self.levels
                &&& forall|l: int|
                    0 <= l < self.levels ==> #[trigger] siblings@[l] == sibling_at(
                        self.hash(),
                        self.zero(),
                        self.leaves(),
                        index as nat,
                        l as nat,
                    )
                &&& forall|l: int|
                    0 <= l < self.levels ==> #[trigger] directions@[l] == direction_at(
                        index as nat,
                        l as nat,
                    )
            },
    {
        if index >= self.layers[0].len() as u128 {
            return Err(MerkleError::IndexOutOfBounds);
        }
        let ghost leaf = index as nat;
        let mut index = index;
        let mut siblings: Vec<F> = Vec::new();
        let mut directions: Vec<u128> = Vec::new();
        let mut level: usize = 0;
        while level < self.levels
            invariant
                0 <= level <= self.levels,
                self.wf(),
                leaf < self.leaves().len(),
                index == ancestor(leaf, level as nat),
                siblings@.len() == level,
                directions@.len() == level,
                forall|l: int|
                    0 <= l < level ==> #[trigger] siblings@[l] == sibling_at(
                        self.hash(),
                        self.zero(),
                        self.leaves(),
                        leaf,
                        l as nat,
                    ),
                forall|l: int| 0 <= l < level ==> #[trigger] directions@[l] == direction_at(leaf, l as nat),
            decreases self.levels - level,
        {
            proof {
                lemma_ancestor_in_layer(self.leaves().len(), leaf, level as nat);
                lemma_layer_at_len(self.hash(), self.zero(), self.leaves(), level as nat);
            }
            let here: u128 = index;
            let width: usize = self.layers[level].len();
            assert(here ^ 1 == if here % 2 == 0 {
                here + 1
            } else {
                here - 1
            }) by (bit_vector)
                requires
                    here < u128::MAX,
            ;
            assert(here >> 1 == here / 2) by (bit_vector);
            directions.push(index % 2);
            let other: u128 = index ^ 1;
            let element = if other < width as u128 {
                self.layers[level][other as usize]
            } else {
                self.zeros[level]
            };
            siblings.push(element);
            index = index >> 1;
            level = level + 1;
        }
        Ok((siblings, directions))
    }

    /// The state between a write to leaf `index` and the recomputation of
    /// its ancestors: every node off the path from that leaf to the root is
    /// already what the tree over `target` holds there, and each layer has
    /// its final length, or lacks only the ancestor of that leaf at its end.
    spec fn settled_except(&self, target: Seq<F>, index: nat) -> bool {
        &&& self.shape_ok()
        &&& index < target.len() <= self.capacity
        &&& self.leaves().len() == target.len()
        &&& forall|l: int, j: int|
            #![trigger self.layers@[l]@[j]]
            0 <= l <= self.levels && 0 <= j < self.layers@[l]@.len() && j != ancestor(
                index,
                l as nat,
            ) ==> self.layers@[l]@[j] == layer_at(self.hash(), self.zero(), target, l as nat)[j]
        &&& forall|l: int|
            #![trigger self.layers@[l]]
            0 <= l <= self.levels ==> {
                let have = self.layers@[l]@.len();
                let want = layer_at(self.hash(), self.zero(), target, l as nat).len();
                have == want || (have + 1 == want && ancestor(index, l as nat) == have)
            }
    }

    /// The state in which every node whose subtree is entirely filled is in
    /// place, while a node over a partly filled subtree may still be stale
    /// or missing.
    spec fn filled_part_ok(&self) -> bool {
        &&& self.shape_ok()
        &&& self.leaves().len() <= self.capacity
        &&& forall|l: int, j: int|
            #![trigger self.layers@[l]@[j]]
            0 <= l <= self.levels && 0 <= j < ancestor(self.leaves().len(), l as nat)
                ==> self.layers@[l]@[j] == layer_at(
                self.hash(),
                self.zero(),
                self.leaves(),
                l as nat,
            )[j]
        &&& forall|l: int|
            #![trigger self.layers@[l]]
            0 <= l <= self.levels ==> ancestor(self.leaves().len(), l as nat)
                <= self.layers@[l]@.len() <= layer_at(
                self.hash(),
                self.zero(),
                self.leaves(),
                l as nat,
            ).len()
    }

    /// Writes `element` to leaf `index` and recomputes the ancestors of that
    /// leaf, from the bottom up.
    fn propagate(&mut self, index: usize, element: F)
        requires
            old(self).settled_except(old(self).leaves().update(index as int, element), index as nat),
        ensures
            final(self).wf(),
            final(self).levels == old(self).levels,
            final(self).capacity == old(self).capacity,
            final(self).zeros == old(self).zeros,
            final(self).hash_fn == old(self).hash_fn,
            final(self).leaves() == old(self).leaves().update(index as int, element),
    {
        let ghost target = self.leaves().update(index as int, element);
        let ghost leaf = index as nat;
        let mut index = index;
        self.layers[0][index] = element;
        assert(self.layers@[0]@ =~= target);
        let mut level: usize = 1;
        while level <= self.levels
            invariant
                1 <= level <= self.levels + 1,
                self.shape_ok(),
                self.levels == old(self).levels,
                self.capacity == old(self).capacity,
                self.zeros == old(self).zeros,
                self.hash_fn == old(self).hash_fn,
                leaf < target.len() <= self.capacity,
                index == ancestor(leaf, (level - 1) as nat),
                forall|k: int|
                    0 <= k < level ==> #[trigger] self.layers@[k]@ == layer_at(
                        self.hash(),
                        self.zero(),
                        target,
                        k as nat,
                    ),
                forall|k: int| level <= k <= self.levels ==> #[trigger] self.layers@[k] == old(self).layers@[k],
                old(self).settled_except(target, leaf),
                old(self).zero() == self.zero(),
                old(self).hash() == self.hash(),
            decreases self.levels + 1 - level,
        {
            proof {
                lemma_ancestor_in_layer(target.len(), leaf, (level - 1) as nat);
                lemma_ancestor_in_layer(target.len(), leaf, level as nat);
                lemma_layer_at_len(self.hash(), self.zero(), target, (level - 1) as nat);
                lemma_layer_at_len(self.hash(), self.zero(), target, level as nat);
            }
            index = index / 2;
            let below_len: usize = self.layers[level - 1].len();
            let left = self.layers[level - 1][index * 2];
            let right = if index * 2 + 1 < below_len {
                self.layers[level - 1][index * 2 + 1]
            } else {
                self.zeros[level - 1]
            };
            let node = combine(&self.hash_fn, left, right);
            let ghost want = layer_at(self.hash(), self.zero(), target, level as nat);
            assert(node == want[index as int]);
            assert(self.layers@[level as int] == old(self).layers@[level as int]);
            if index == self.layers[level].len() {
                self.layers[level].push(node);
            } else {
                self.layers[level][index] = node;
            }
            assert(self.layers@[level as int]@ =~= want);
            level = level + 1;
        }
    }

    /// Overwrites leaf `index` with `element` and brings the ancestors of
    /// that leaf up to date.
    ///
    /// Fails with `IndexOutOfBounds`, and changes nothing, exactly when the
    /// tree holds no leaf at `index`.
    pub fn update(&mut self, index: usize, element: F) -> (r: Result<(), MerkleError>)
        requires
            old(self).wf(),
        ensures
            r is Err <==> index >= old(self).leaves().len(),
            r is Err ==> r->Err_0 == MerkleError::IndexOutOfBounds && *final(self) == *old(self),
            r is Ok ==> {
                &&& final(self).wf()
                &&& final(self).levels == old(self).levels
                &&& final(self).capacity == old(self).capacity
                &&& final(self).zeros == old(self).zeros
                &&& final(self).hash_fn == old(self).hash_fn
                &&& final(self).leaves() == old(self).leaves().update(index as int, element)
            },
    {
        if index >= self.layers[0].len() || index as u128 >= self.capacity {
            return Err(MerkleError::IndexOutOfBounds);
        }
        proof {
            let target = self.leaves().update(index as int, element);
            assert forall|l: int, j: int|
                0 <= l <= self.levels && 0 <= j < self.layers@[l]@.len() && j != ancestor(
                    index as nat,
                    l as nat,
                ) implies #[trigger] self.layers@[l]@[j] == layer_at(
                self.hash(),
                self.zero(),
                target,
                l as nat,
            )[j] by {
                lemma_update_is_local(self.hash(), self.zero(), self.leaves(), index as nat, element, l as nat);
            }
            assert forall|l: int| 0 <= l <= self.levels implies (#[trigger] self.layers@[l])@.len()
                == layer_at(self.hash(), self.zero(), target, l as nat).len() by {
                lemma_update_is_local(self.hash(), self.zero(), self.leaves(), index as nat, element, l as nat);
            }
        }
        self.propagate(index, element);
        Ok(())
    }

    /// Appends `element` as a new leaf and recomputes all of its ancestors.
    fn append_leaf(&mut self, element: F)
        requires
            old(self).filled_part_ok(),
            old(self).leaves().len() < old(self).capacity,
        ensures
            final(self).wf(),
            final(self).levels == old(self).levels,
            final(self).capacity == old(self).capacity,
            final(self).zeros == old(self).zeros,
            final(self).hash_fn == old(self).hash_fn,
            final(self).leaves() == old(self).leaves().push(element),
    {
        let index: usize = self.layers[0].len();
        self.layers[0].push(element);
        proof {
            let target = old(self).leaves().push(element);
            assert(self.leaves() =~= target);
            assert(self.leaves().update(index as int, element) =~= target);
            assert forall|l: int, j: int|
                0 <= l <= self.levels && 0 <= j < self.layers@[l]@.len() && j != ancestor(
                    index as nat,
                    l as nat,
                ) implies #[trigger] self.layers@[l]@[j] == layer_at(
                self.hash(),
                self.zero(),
                target,
                l as nat,
            )[j] by {
                if l > 0 {
                    lemma_layer_at_len(self.hash(), self.zero(), old(self).leaves(), l as nat);
                    lemma_layer_len_bounds(index as nat, l as nat);
                    lemma_push_keeps_filled(self.hash(), self.zero(), old(self).leaves(), element, l as nat);
                    assert(self.layers@[l] == old(self).layers@[l]);
                }
            }
            assert forall|l: int| 0 <= l <= self.levels implies {
                let have = (#[trigger] self.layers@[l])@.len();
                let want = layer_at(self.hash(), self.zero(), target, l as nat).len();
                have == want || (have + 1 == want && ancestor(index as nat, l as nat) == have)
            } by {
                if l > 0 {
                    lemma_layer_at_len(self.hash(), self.zero(), old(self).leaves(), l as nat);
                    lemma_layer_at_len(self.hash(), self.zero(), target, l as nat);
                    lemma_layer_len_bounds(index as nat, l as nat);
                    lemma_layer_len_after_push(index as nat, l as nat);
                    assert(self.layers@[l] == old(self).layers@[l]);
                }
            }
        }
        self.propagate(index, element);
    }

    /// Appends `element` as a new leaf and computes only those of its
    /// ancestors whose subtree the new leaf has filled: the walk goes up
    /// while the node just written is a right child.
    fn append_filling(&mut self, element: F)
        requires
            old(self).filled_part_ok(),
            old(self).leaves().len() < old(self).capacity,
        ensures
            final(self).filled_part_ok(),
            final(self).levels == old(self).levels,
            final(self).capacity == old(self).capacity,
            final(self).zeros == old(self).zeros,
            final(self).hash_fn == old(self).hash_fn,
            final(self).leaves() == old(self).leaves().push(element),
    {
        let ghost before = old(self).leaves();
        let ghost after = before.push(element);
        let ghost leaf = before.len();
        self.layers[0].push(element);
        let mut level: usize = 0;
        let mut index: usize = self.layers[0].len() - 1;
        assert(self.leaves() =~= after);
        while index % 2 == 1
            invariant
                0 <= level <= self.levels,
                self.shape_ok(),
                self.levels == old(self).levels,
                self.capacity == old(self).capacity,
                self.zeros == old(self).zeros,
                self.hash_fn == old(self).hash_fn,
                old(self).filled_part_ok(),
                before == old(self).leaves(),
                after == before.push(element),
                leaf == before.len(),
                leaf < self.capacity,
                index == ancestor(leaf, level as nat),
                forall|k: int|
                    0 <= k <= level ==> #[trigger] self.layers@[k]@ == layer_at(
                        self.hash(),
                        self.zero(),
                        after,
                        k as nat,
                    ),
                forall|k: int| level < k <= self.levels ==> #[trigger] self.layers@[k] == old(self).layers@[k],
            decreases self.levels - level,
        {
            proof {
                vstd::arithmetic::power2::lemma2_to64();
                lemma_ancestor_below_capacity(leaf, self.levels as nat, self.levels as nat);
                lemma_layer_at_len(self.hash(), self.zero(), after, level as nat);
                lemma_layer_at_len(self.hash(), self.zero(), after, (level + 1) as nat);
                lemma_layer_at_len(self.hash(), self.zero(), before, (level + 1) as nat);
                lemma_layer_len_after_push(leaf, level as nat);
                lemma_layer_len_after_push(leaf, (level + 1) as nat);
                lemma_layer_len_bounds(leaf, (level + 1) as nat);
                lemma_push_keeps_filled(self.hash(), self.zero(), before, element, (level + 1) as nat);
            }
            level = level + 1;
            index = index / 2;
            let left = self.layers[level - 1][index * 2];
            let right = self.layers[level - 1][index * 2 + 1];
            let node = combine(&self.hash_fn, left, right);
            let ghost want = layer_at(self.hash(), self.zero(), after, level as nat);
            assert(node == want[index as int]);
            assert(self.layers@[level as int] == old(self).layers@[level as int]);
            if index == self.layers[level].len() {
                self.layers[level].push(node);
            } else {
                self.layers[level][index] = node;
            }
            assert(self.layers@[level as int]@ =~= want);
        }
        proof {
            assert forall|l: int, j: int|
                0 <= l <= self.levels && 0 <= j < ancestor(after.len(), l as nat)
                    implies #[trigger] self.layers@[l]@[j] == layer_at(
                    self.hash(),
                    self.zero(),
                    after,
                    l as nat,
                )[j] by {
                if l > level {
                    lemma_shared_ancestor(leaf, level as nat, l as nat);
                    lemma_push_keeps_filled(self.hash(), self.zero(), before, element, l as nat);
                    assert(self.layers@[l] == old(self).layers@[l]);
                }
            }
            assert forall|l: int| 0 <= l <= self.levels implies {
                let have = (#[trigger] self.layers@[l])@.len();
                let want = layer_at(self.hash(), self.zero(), after, l as nat).len();
                ancestor(after.len(), l as nat) <= have <= want
            } by {
                lemma_layer_at_len(self.hash(), self.zero(), after, l as nat);
                lemma_layer_len_bounds(after.len(), l as nat);
                if l > level {
                    lemma_shared_ancestor(leaf, level as nat, l as nat);
                    lemma_layer_at_len(self.hash(), self.zero(), before, l as nat);
                    lemma_layer_len_bounds(leaf, l as nat);
                    lemma_layer_len_after_push(leaf, l as nat);
                    assert(self.layers@[l] == old(self).layers@[l]);
                }
            }
        }
    }

    /// Every tree that is well formed has, in particular, its filled part
    /// in place.
    proof fn lemma_wf_filled_part_ok(&self)
        requires
            self.wf(),
        ensures
            self.filled_part_ok(),
    {
        assert forall|l: int| 0 <= l <= self.levels implies ancestor(self.leaves().len(), l as nat)
            <= (#[trigger] self.layers@[l])@.len() by {
            lemma_layer_at_len(self.hash(), self.zero(), self.leaves(), l as nat);
            lemma_layer_len_bounds(self.leaves().len(), l as nat);
        }
    }

    /// Appends `element` as the next leaf and brings its ancestors up to
    /// date.
    ///
    /// Fails with `TreeFull`, and changes nothing, exactly when the tree
    /// already holds as many leaves as its capacity.
    pub fn insert(&mut self, element: F) -> (r: Result<(), MerkleError>)
        requires
            old(self).wf(),
        ensures
            r is Err <==> old(self).leaves().len() >= old(self).capacity,
            r is Err ==> r->Err_0 == MerkleError::TreeFull && *final(self) == *old(self),
            r is Ok ==> {
                &&& final(self).wf()
                &&& final(self).levels == old(self).levels
                &&& final(self).capacity == old(self).capacity
                &&& final(self).zeros == old(self).zeros
                &&& final(self).hash_fn == old(self).hash_fn
                &&& final(self).leaves() == old(self).leaves().push(element)
            },
    {
        if self.layers[0].len() as u128 >= self.capacity {
            return Err(MerkleError::TreeFull);
        }
        proof {
            self.lemma_wf_filled_part_ok();
        }
        self.append_leaf(element);
        Ok(())
    }

    /// Appends `elements`, in order, as the next leaves. All but the last
    /// take the short walk that computes only the ancestors they fill; the
    /// last takes the full walk, which brings the rest up to date.
    ///
    /// Fails, and changes nothing, with `InvalidArgument` exactly when
    /// `elements` is empty, and with `TreeFull` exactly when it is not empty
    /// and the leaves would then reach the capacity.
    #[allow(non_snake_case)]
    pub fn bulkInsert(&mut self, elements: Vec<F>) -> (r: Result<(), MerkleError>)
        requires
            old(self).wf(),
        ensures
            r == Err::<(), MerkleError>(MerkleError::InvalidArgument) <==> elements@.len() == 0,
            r == Err::<(), MerkleError>(MerkleError::TreeFull) <==> elements@.len() > 0 && old(
                self,
            ).leaves().len() + elements@.len() >= old(self).capacity,
            r is Err ==> *final(self) == *old(self),
            r is Ok <==> elements@.len() > 0 && old(self).leaves().len() + elements@.len() < old(
                self,
            ).capacity,
            r is Ok ==> {
                &&& final(self).wf()
                &&& final(self).levels == old(self).levels
                &&& final(self).capacity == old(self).capacity
                &&& final(self).zeros == old(self).zeros
                &&& final(self).hash_fn == old(self).hash_fn
                &&& final(self).leaves() == old(self).leaves() + elements@
            },
    {
        if elements.len() == 0 {
            return Err(MerkleError::InvalidArgument);
        }
        if self.layers[0].len() as u128 + elements.len() as u128 >= self.capacity {
            return Err(MerkleError::TreeFull);
        }
        proof {
            self.lemma_wf_filled_part_ok();
        }
        let last: usize = elements.len() - 1;
        let mut i: usize = 0;
        while i < last
            invariant
                i <= last,
                last + 1 == elements@.len(),
                self.filled_part_ok(),
                self.levels == old(self).levels,
                self.capacity == old(self).capacity,
                self.zeros == old(self).zeros,
                self.hash_fn == old(self).hash_fn,
                self.leaves() == old(self).leaves() + elements@.subrange(0, i as int),
                old(self).leaves().len() + elements@.len() < self.capacity,
            decreases last - i,
        {
            self.append_filling(elements[i]);
            assert(self.leaves() =~= old(self).leaves() + elements@.subrange(0, i + 1));
            i = i + 1;
        }
        self.append_leaf(elements[last]);
        assert(self.leaves() =~= old(self).leaves() + elements@);
        Ok(())
    }

    /// In a well-formed tree each layer above the leaves has one node per
    /// pair of the layer below, each node is the hash of its pair, a missing
    /// right sibling replaced by the default value of the level below, and
    /// the top layer has at most one node.
    pub proof fn lemma_layer_shapes(&self)
        requires
            self.wf(),
        ensures
            forall|i: int|
                1 <= i <= self.levels ==> (#[trigger] self.layers@[i])@.len() == (self.layers@[i
                    - 1]@.len() + 1) / 2,
            forall|i: int, j: int|
                1 <= i <= self.levels && 0 <= j < self.layers@[i]@.len()
                    ==> #[trigger] self.layers@[i]@[j] == (self.hash())(
                    self.layers@[i - 1]@[2 * j],
                    if 2 * j + 1 < self.layers@[i - 1]@.len() {
                        self.layers@[i - 1]@[2 * j + 1]
                    } else {
                        self.zeros@[i - 1]
                    },
                ),
            self.layers@[self.levels as int]@.len() <= 1,
            self.leaves().len() > 0 ==> self.layers@[self.levels as int]@.len() == 1,
    {
        lemma_top_layer_len(self.leaves().len(), self.levels as nat);
        lemma_layer_at_len(self.hash(), self.zero(), self.leaves(), self.levels as nat);
        assert forall|i: int| 1 <= i <= self.levels implies (#[trigger] self.layers@[i])@ == layer_above(
            self.hash(),
            self.layers@[i - 1]@,
            self.zeros@[i - 1],
        ) by {
            assert(self.layers@[i - 1]@ == layer_at(self.hash(), self.zero(), self.leaves(), (i - 1) as nat));
        }
    }

    /// Two well-formed trees of one depth, with one default leaf, one
    /// combiner and the same leaves are the same in every layer and commit
    /// to the same root, however their leaves came in.
    pub proof fn lemma_same_leaves_same_tree(&self, other: &Self)
        requires
            self.wf(),
            other.wf(),
            self.levels == other.levels,
            self.zero() == other.zero(),
            self.hash() == other.hash(),
            self.leaves() == other.leaves(),
        ensures
            forall|i: int| 0 <= i <= self.levels ==> (#[trigger] self.layers@[i])@ == other.layers@[i]@,
            self.zeros@ == other.zeros@,
            self.spec_root() == other.spec_root(),
    {
        assert(self.zeros@ =~= other.zeros@);
    }
}

} // verus!
