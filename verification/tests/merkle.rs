use merkle_tree::error::MerkleError;
use merkle_tree::hasher::combine;
use merkle_tree::tree::{capacity_for, zero_element_text, MerkleTree, DEFAULT_ZERO, MAX_LEVELS};

/// A combiner on small integers that tells its two arguments apart.
fn mix(left: u64, right: u64) -> u64 {
    (left % 1_000_003 * 7919 + right % 1_000_003 * 104_729 + 12_345) % 1_000_000_007
}

/// The table of default values of a tree of depth `depth` over `zero`.
fn zero_table(zero: u64, depth: usize) -> Vec<u64> {
    let mut table = vec![zero];
    for level in 1..=depth {
        let below = table[level - 1];
        table.push(mix(below, below));
    }
    table
}

/// The node at `level` and `index` of the full tree over `leaves` followed
/// by default leaves, by plain recursion.
fn padded_node(leaves: &[u64], zero: u64, level: usize, index: usize) -> u64 {
    if level == 0 {
        if index < leaves.len() {
            leaves[index]
        } else {
            zero
        }
    } else {
        mix(
            padded_node(leaves, zero, level - 1, 2 * index),
            padded_node(leaves, zero, level - 1, 2 * index + 1),
        )
    }
}

/// Every layer of the tree over `leaves`, computed from the bottom up.
fn layers_from_scratch(leaves: &[u64], zero: u64, depth: usize) -> Vec<Vec<u64>> {
    let zeros = zero_table(zero, depth);
    let mut layers = vec![leaves.to_vec()];
    for level in 1..=depth {
        let below = layers[level - 1].clone();
        let mut layer = Vec::new();
        let mut j = 0;
        while 2 * j < below.len() {
            let right = if 2 * j + 1 < below.len() { below[2 * j + 1] } else { zeros[level - 1] };
            layer.push(mix(below[2 * j], right));
            j += 1;
        }
        layers.push(layer);
    }
    layers
}

/// The node reached from `leaf` along an authentication path.
fn climb(leaf: u64, siblings: &[u64], directions: &[u128]) -> u64 {
    let mut node = leaf;
    for level in 0..siblings.len() {
        node = if directions[level] == 0 {
            mix(node, siblings[level])
        } else {
            mix(siblings[level], node)
        };
    }
    node
}

fn tree_over(depth: usize, zero: u64, leaves: &[u64]) -> MerkleTree<u64, fn(u64, u64) -> u64> {
    MerkleTree::new(depth, zero, mix as fn(u64, u64) -> u64, Some(leaves.to_vec())).unwrap()
}

fn empty_tree(depth: usize, zero: u64) -> MerkleTree<u64, fn(u64, u64) -> u64> {
    MerkleTree::new(depth, zero, mix as fn(u64, u64) -> u64, None).unwrap()
}

fn is_consistent(tree: &MerkleTree<u64, fn(u64, u64) -> u64>) -> bool {
    let leaves = tree.layers[0].clone();
    tree.layers == layers_from_scratch(&leaves, tree.zeros[0], tree.levels)
        && tree.zeros == zero_table(tree.zeros[0], tree.levels)
        && tree.root() == padded_node(&leaves, tree.zeros[0], tree.levels, 0)
}

#[test]
fn test_new() {
    let elements: Vec<u64> = vec![100, 7, 3, 4, 5, 6, 7, 8, 9, 10, 11, 12, 13, 14, 15, 16, 17];
    let mut expected = elements.clone();
    let mut a = tree_over(11, 0, &elements);
    assert!(is_consistent(&a));
    let (siblings, directions) = a.path(4).unwrap();
    assert_eq!(siblings.len(), 11);
    assert_eq!(directions.len(), 11);
    assert_eq!(climb(expected[4], &siblings, &directions), a.root());

    a.update(16, 44).unwrap();
    expected[16] = 44;
    assert_eq!(a.layers[0], expected);
    assert!(is_consistent(&a));
    let (siblings, directions) = a.path(16).unwrap();
    assert_eq!(climb(44, &siblings, &directions), a.root());

    a.insert(100).unwrap();
    expected.push(100);
    assert_eq!(a.layers[0], expected);
    assert!(is_consistent(&a));
    let (siblings, directions) = a.path(16).unwrap();
    assert_eq!(siblings[0], 100);
    assert_eq!(climb(44, &siblings, &directions), a.root());

    a.insert(100).unwrap();
    expected.push(100);
    assert!(is_consistent(&a));
    let (siblings, directions) = a.path(16).unwrap();
    assert_eq!(climb(44, &siblings, &directions), a.root());

    a.bulkInsert(vec![18, 19, 20, 21]).unwrap();
    expected.extend_from_slice(&[18, 19, 20, 21]);
    assert_eq!(a.layers[0], expected);
    assert!(is_consistent(&a));
    let (siblings, directions) = a.path(20).unwrap();
    assert_eq!(climb(19, &siblings, &directions), a.root());
    assert_eq!(a.root(), padded_node(&expected, 0, 11, 0));
}

#[test]
fn capacity_is_two_to_the_depth() {
    assert_eq!(capacity_for(0), 1);
    assert_eq!(capacity_for(1), 2);
    assert_eq!(capacity_for(11), 2048);
    assert_eq!(capacity_for(64), 18_446_744_073_709_551_616);
    assert_eq!(capacity_for(MAX_LEVELS), 170_141_183_460_469_231_731_687_303_715_884_105_728);
    assert_eq!(empty_tree(2, 5).capacity, 4);
    assert_eq!(empty_tree(127, 5).capacity, 1u128 << 127);
}

#[test]
fn default_zero_is_the_canonical_constant() {
    assert_eq!(
        DEFAULT_ZERO,
        "21663839004416932945382355908790599225266501822907911457504978515578255421292"
    );
    assert_eq!(zero_element_text(None), DEFAULT_ZERO);
    assert_eq!(zero_element_text(Some(String::from("17"))), "17");
    assert_eq!(zero_element_text(Some(String::new())), "");
}

#[test]
fn combine_calls_the_combiner() {
    assert_eq!(combine(&mix, 3, 4), mix(3, 4));
    assert_eq!(mix(3, 4), 3 * 7919 + 4 * 104_729 + 12_345);
    assert_ne!(combine(&mix, 3, 4), combine(&mix, 4, 3));
}

#[test]
fn zeros_table_is_built_bottom_up() {
    let tree = empty_tree(3, 5);
    let z1 = mix(5, 5);
    let z2 = mix(z1, z1);
    let z3 = mix(z2, z2);
    assert_eq!(tree.zeros, vec![5, z1, z2, z3]);
    assert_eq!(tree.levels, 3);
    assert_eq!(tree.layers, vec![Vec::<u64>::new(); 4]);
}

#[test]
fn empty_tree_root_is_top_zero() {
    let tree = empty_tree(2, 5);
    let z1 = mix(5, 5);
    let z2 = mix(z1, z1);
    assert_eq!(tree.root(), z2);
    assert_eq!(tree.root(), padded_node(&[], 5, 2, 0));
}

#[test]
fn construction_builds_every_layer() {
    let tree = tree_over(3, 9, &[1, 2, 3, 4, 5]);
    let z = zero_table(9, 3);
    let n10 = mix(1, 2);
    let n11 = mix(3, 4);
    let n12 = mix(5, z[0]);
    let n20 = mix(n10, n11);
    let n21 = mix(n12, z[1]);
    let n30 = mix(n20, n21);
    assert_eq!(tree.layers, vec![vec![1, 2, 3, 4, 5], vec![n10, n11, n12], vec![n20, n21], vec![n30]]);
    assert_eq!(tree.root(), n30);
}

#[test]
fn too_many_initial_leaves_are_refused() {
    let r = MerkleTree::new(1, 0u64, mix, Some(vec![1, 2, 3]));
    assert!(matches!(r, Err(MerkleError::CapacityExceeded)));
    let r = MerkleTree::new(2, 0u64, mix, Some(vec![1, 2, 3, 4, 5]));
    assert_eq!(r.err(), Some(MerkleError::CapacityExceeded));
}

#[test]
fn initial_leaves_may_fill_the_capacity() {
    let tree = tree_over(2, 0, &[1, 2, 3, 4]);
    assert_eq!(tree.layers[0], vec![1, 2, 3, 4]);
    assert_eq!(tree.root(), mix(mix(1, 2), mix(3, 4)));
}

#[test]
fn full_tree_root_is_plain_recursive_hash() {
    let leaves: Vec<u64> = vec![11, 22, 33, 44, 55, 66, 77, 88];
    let expected = mix(
        mix(mix(11, 22), mix(33, 44)),
        mix(mix(55, 66), mix(77, 88)),
    );
    assert_eq!(tree_over(3, 1, &leaves).root(), expected);
    assert_eq!(tree_over(3, 999, &leaves).root(), expected);
    let mut grown = empty_tree(3, 1);
    for leaf in &leaves {
        grown.insert(*leaf).unwrap();
    }
    assert_eq!(grown.root(), expected);
}

#[test]
fn missing_siblings_count_as_zeros() {
    for depth in 1..=5usize {
        for count in 0..=(1usize << depth) {
            let leaves: Vec<u64> = (0..count as u64).map(|k| 1000 + 3 * k).collect();
            let tree = tree_over(depth, 7, &leaves);
            assert_eq!(tree.root(), padded_node(&leaves, 7, depth, 0));
            assert_eq!(tree.layers, layers_from_scratch(&leaves, 7, depth));
        }
    }
}

#[test]
fn incremental_tree_equals_rebuild() {
    let mut tree = empty_tree(4, 3);
    let mut leaves: Vec<u64> = Vec::new();
    for k in 0..16u64 {
        tree.insert(50 + k).unwrap();
        leaves.push(50 + k);
        let rebuilt = tree_over(4, 3, &leaves);
        assert_eq!(tree.layers, rebuilt.layers);
        assert_eq!(tree.root(), rebuilt.root());
    }
    for k in 0..16usize {
        tree.update(k, 900 + k as u64).unwrap();
        leaves[k] = 900 + k as u64;
        let rebuilt = tree_over(4, 3, &leaves);
        assert_eq!(tree.layers, rebuilt.layers);
        assert_eq!(tree.root(), rebuilt.root());
    }
}

#[test]
fn update_to_same_value_keeps_root() {
    let leaves: Vec<u64> = vec![4, 8, 15, 16, 23];
    let mut tree = tree_over(3, 0, &leaves);
    let root = tree.root();
    let layers = tree.layers.clone();
    for index in 0..leaves.len() {
        tree.update(index, leaves[index]).unwrap();
        assert_eq!(tree.root(), root);
        assert_eq!(tree.layers, layers);
    }
}

#[test]
fn update_changes_leaf_and_ancestors() {
    let mut tree = tree_over(2, 0, &[1, 2, 3]);
    tree.update(0, 10).unwrap();
    let z1 = mix(0, 0);
    assert_eq!(tree.layers[0], vec![10, 2, 3]);
    assert_eq!(tree.layers[1], vec![mix(10, 2), mix(3, 0)]);
    assert_eq!(tree.root(), mix(mix(10, 2), mix(3, 0)));
    assert_ne!(tree.root(), mix(mix(1, 2), mix(3, 0)));
    tree.update(2, 30).unwrap();
    assert_eq!(tree.root(), mix(mix(10, 2), mix(30, 0)));
    let mut single = tree_over(2, 0, &[1]);
    single.update(0, 5).unwrap();
    assert_eq!(single.root(), mix(mix(5, 0), z1));
}

#[test]
fn inserts_equal_construction() {
    for depth in 1..=4usize {
        for count in 0..=(1usize << depth) {
            let leaves: Vec<u64> = (0..count as u64).map(|k| 17 * k + 1).collect();
            let mut grown = empty_tree(depth, 2);
            for leaf in &leaves {
                grown.insert(*leaf).unwrap();
            }
            let built = tree_over(depth, 2, &leaves);
            assert_eq!(grown.root(), built.root());
            assert_eq!(grown.layers, built.layers);
        }
    }
}

#[test]
fn every_path_leads_to_the_root() {
    for depth in 1..=5usize {
        for count in 1..=(1usize << depth) {
            let leaves: Vec<u64> = (0..count as u64).map(|k| 5 * k + 2).collect();
            let tree = tree_over(depth, 1, &leaves);
            for index in 0..count {
                let (siblings, directions) = tree.path(index as u128).unwrap();
                assert_eq!(siblings.len(), depth);
                assert_eq!(directions.len(), depth);
                assert_eq!(climb(leaves[index], &siblings, &directions), tree.root());
                for level in 0..depth {
                    assert_eq!(directions[level], ((index >> level) % 2) as u128);
                }
            }
        }
    }
}

#[test]
fn path_holds_siblings_and_directions() {
    let tree = tree_over(2, 0, &[1, 2, 3]);
    let z1 = mix(0, 0);
    assert_eq!(tree.path(0).unwrap(), (vec![2, mix(3, 0)], vec![0, 0]));
    assert_eq!(tree.path(1).unwrap(), (vec![1, mix(3, 0)], vec![1, 0]));
    assert_eq!(tree.path(2).unwrap(), (vec![0, mix(1, 2)], vec![0, 1]));
    let single = tree_over(2, 0, &[1]);
    assert_eq!(single.path(0).unwrap(), (vec![0, z1], vec![0, 0]));
}

#[test]
fn index_beyond_leaves_is_refused() {
    let mut tree = tree_over(3, 0, &[1, 2, 3]);
    let layers = tree.layers.clone();
    assert_eq!(tree.update(3, 9), Err(MerkleError::IndexOutOfBounds));
    assert_eq!(tree.update(8, 9), Err(MerkleError::IndexOutOfBounds));
    assert_eq!(tree.update(usize::MAX, 9), Err(MerkleError::IndexOutOfBounds));
    assert_eq!(tree.path(3).err(), Some(MerkleError::IndexOutOfBounds));
    assert_eq!(tree.path(u128::MAX).err(), Some(MerkleError::IndexOutOfBounds));
    assert_eq!(tree.layers, layers);
    assert!(tree.update(2, 9).is_ok());
    assert!(tree.path(2).is_ok());
    let mut none = empty_tree(3, 0);
    assert_eq!(none.update(0, 1), Err(MerkleError::IndexOutOfBounds));
    assert_eq!(none.path(0).err(), Some(MerkleError::IndexOutOfBounds));
}

#[test]
fn insert_into_full_tree_is_refused() {
    let mut tree = tree_over(2, 0, &[1, 2, 3]);
    assert_eq!(tree.insert(4), Ok(()));
    let layers = tree.layers.clone();
    let root = tree.root();
    assert_eq!(tree.insert(5), Err(MerkleError::TreeFull));
    assert_eq!(tree.layers, layers);
    assert_eq!(tree.root(), root);
}

#[test]
fn depth_two_scenario() {
    let (a, b, c) = (101u64, 202u64, 303u64);
    let zero0 = 77u64;
    let zero1 = mix(zero0, zero0);
    let mut tree = tree_over(2, zero0, &[a]);
    assert_eq!(tree.capacity, 4);
    assert_eq!(tree.root(), mix(mix(a, zero0), zero1));
    tree.insert(b).unwrap();
    assert_eq!(tree.root(), mix(mix(a, b), zero1));
    tree.insert(c).unwrap();
    assert_eq!(tree.root(), mix(mix(a, b), mix(c, zero0)));
}

#[test]
fn bulk_insert_equals_single_inserts() {
    for start in 0..8usize {
        for count in 1..(16 - start) {
            let first: Vec<u64> = (0..start as u64).map(|k| 3 * k + 1).collect();
            let batch: Vec<u64> = (0..count as u64).map(|k| 1000 + k).collect();
            let mut bulk = tree_over(4, 6, &first);
            let mut single = tree_over(4, 6, &first);
            bulk.bulkInsert(batch.clone()).unwrap();
            for element in &batch {
                single.insert(*element).unwrap();
            }
            assert_eq!(bulk.layers, single.layers);
            assert_eq!(bulk.root(), single.root());
            assert!(is_consistent(&bulk));
        }
    }
}

#[test]
fn bulk_insert_of_one_element_is_an_insert() {
    let mut tree = tree_over(3, 0, &[1, 2]);
    tree.bulkInsert(vec![3]).unwrap();
    assert_eq!(tree.layers[0], vec![1, 2, 3]);
    assert_eq!(tree.root(), padded_node(&[1, 2, 3], 0, 3, 0));
}

#[test]
fn bulk_insert_that_reaches_capacity_is_refused() {
    let mut tree = tree_over(2, 0, &[1]);
    let layers = tree.layers.clone();
    assert_eq!(tree.bulkInsert(vec![2, 3, 4]), Err(MerkleError::TreeFull));
    assert_eq!(tree.bulkInsert(vec![2, 3, 4, 5]), Err(MerkleError::TreeFull));
    assert_eq!(tree.layers, layers);
    assert_eq!(tree.bulkInsert(vec![2, 3]), Ok(()));
    assert_eq!(tree.layers[0], vec![1, 2, 3]);
    assert_eq!(tree.bulkInsert(vec![4]), Err(MerkleError::TreeFull));
}

#[test]
fn empty_bulk_insert_is_refused() {
    let mut tree = tree_over(2, 0, &[1]);
    let layers = tree.layers.clone();
    assert_eq!(tree.bulkInsert(Vec::new()), Err(MerkleError::InvalidArgument));
    assert_eq!(tree.layers, layers);
    let mut full = tree_over(1, 0, &[1, 2]);
    assert_eq!(full.bulkInsert(Vec::new()), Err(MerkleError::InvalidArgument));
}

#[test]
fn top_layer_has_at_most_one_node() {
    let mut tree = empty_tree(3, 0);
    assert_eq!(tree.layers[3].len(), 0);
    for k in 0..8u64 {
        tree.insert(k).unwrap();
        assert_eq!(tree.layers[3].len(), 1);
        for level in 1..=3usize {
            assert_eq!(tree.layers[level].len(), (tree.layers[level - 1].len() + 1) / 2);
        }
    }
}
